//! The Markdown document tree, and reading it from the parser.
//!
//! comrak parses Markdown and can write the tree it built as CommonMark XML.
//! That XML is read back here into the library's own tree: `parse_xml_document`
//! is proved to return only a tree that prints back, character for character,
//! as the XML it was read from (see `xml_document`, which is how comrak prints),
//! and to return one whenever the XML is the printing of a printable tree.

use vstd::prelude::*;

use crate::render::table::Alignment;
use crate::text::{chars_of, dec, digit, spec_repeat, string_of};
use crate::theme::AlertKind;

verus! {

/// What a list says about itself.
#[derive(Clone, Copy, Debug, PartialEq, Eq, Structural)]
pub struct ListInfo {
    /// Numbered, rather than bulleted.
    pub ordered: bool,
    /// The first number of a numbered list.
    pub start: usize,
    /// Numbers end in `)`, rather than `.`.
    pub paren: bool,
    /// Some item is a task.
    pub tasklist: bool,
    /// No blank lines between items.
    pub tight: bool,
}

/// What a node is, with the data of its kind.
#[derive(Debug)]
pub enum NodeKind {
    Document,
    BlockQuote,
    List(ListInfo),
    Item,
    /// A list item that is a task, checked or not.
    TaskItem(bool),
    CodeBlock { info: String, literal: String },
    HtmlBlock(String),
    Paragraph,
    Heading(u8),
    ThematicBreak,
    Table,
    TableRow,
    TableCell(Alignment),
    Text(String),
    SoftBreak,
    LineBreak,
    Code(String),
    HtmlInline(String),
    Emph,
    Strong,
    Strikethrough,
    Link { url: String, title: String },
    Image { url: String, title: String },
    FootnoteDefinition(String),
    FootnoteReference(String),
    FrontMatter,
    Alert { kind: AlertKind, title: Option<String>, multiline: bool },
    /// Any other element, by name, without attributes.
    Element(String),
}

/// A node of the document tree and its children, in order.
#[derive(Debug)]
pub struct Node {
    pub kind: NodeKind,
    pub children: Vec<Node>,
}

// --- how the tree is printed as XML ------------------------------------------------

/// `c` as the XML printer writes it in text and attribute values.
pub open spec fn esc_char(c: char) -> Seq<char> {
    if c == '"' {
        seq!['&', 'q', 'u', 'o', 't', ';']
    } else if c == '&' {
        seq!['&', 'a', 'm', 'p', ';']
    } else if c == '<' {
        seq!['&', 'l', 't', ';']
    } else if c == '>' {
        seq!['&', 'g', 't', ';']
    } else if c == '\0' {
        seq!['\u{fffd}']
    } else {
        seq![c]
    }
}

/// `s` escaped for XML, character by character.
pub open spec fn escape(s: Seq<char>) -> Seq<char>
    decreases s.len(),
{
    if s.len() == 0 {
        seq![]
    } else {
        escape(s.drop_last()) + esc_char(s.last())
    }
}

/// `true` or `false`.
pub open spec fn bool_text(b: bool) -> Seq<char> {
    if b { "true"@ } else { "false"@ }
}

/// The lowercase name of an alert kind.
pub open spec fn alert_type_name(k: AlertKind) -> Seq<char> {
    match k {
        AlertKind::Note => "note"@,
        AlertKind::Tip => "tip"@,
        AlertKind::Important => "important"@,
        AlertKind::Warning => "warning"@,
        AlertKind::Caution => "caution"@,
    }
}

/// The element name of a node kind.
pub open spec fn kind_name(k: NodeKind) -> Seq<char> {
    match k {
        NodeKind::Document => "document"@,
        NodeKind::BlockQuote => "block_quote"@,
        NodeKind::List(_) => "list"@,
        NodeKind::Item => "item"@,
        NodeKind::TaskItem(_) => "taskitem"@,
        NodeKind::CodeBlock { .. } => "code_block"@,
        NodeKind::HtmlBlock(_) => "html_block"@,
        NodeKind::Paragraph => "paragraph"@,
        NodeKind::Heading(_) => "heading"@,
        NodeKind::ThematicBreak => "thematic_break"@,
        NodeKind::Table => "table"@,
        NodeKind::TableRow => "table_row"@,
        NodeKind::TableCell(_) => "table_cell"@,
        NodeKind::Text(_) => "text"@,
        NodeKind::SoftBreak => "softbreak"@,
        NodeKind::LineBreak => "linebreak"@,
        NodeKind::Code(_) => "code"@,
        NodeKind::HtmlInline(_) => "html_inline"@,
        NodeKind::Emph => "emph"@,
        NodeKind::Strong => "strong"@,
        NodeKind::Strikethrough => "strikethrough"@,
        NodeKind::Link { .. } => "link"@,
        NodeKind::Image { .. } => "image"@,
        NodeKind::FootnoteDefinition(_) => "footnote_definition"@,
        NodeKind::FootnoteReference(_) => "footnote_reference"@,
        NodeKind::FrontMatter => "frontmatter"@,
        NodeKind::Alert { .. } => "alert"@,
        NodeKind::Element(name) => name@,
    }
}

/// ` name="value"`, with the value written as given.
pub open spec fn attr(name: Seq<char>, value: Seq<char>) -> Seq<char> {
    seq![' '] + name + "=\""@ + value + seq!['"']
}

/// The attributes of a code block with the language `info`.
pub open spec fn code_attrs(info: Seq<char>) -> Seq<char> {
    if info.len() > 0 {
        attr("info"@, info) + (if info == "math"@ { attr("math_style"@, "display"@) } else { seq![] })
    } else {
        seq![]
    }
}

/// The attributes a node kind's element carries.
pub open spec fn kind_attrs(k: NodeKind) -> Seq<char> {
    match k {
        NodeKind::Document => attr("xmlns"@, "http://commonmark.org/xml/1.0"@),
        NodeKind::List(l) => (if l.ordered {
            attr("type"@, "ordered"@) + attr("start"@, dec(l.start as nat))
                + attr("delim"@, if l.paren { "paren"@ } else { "period"@ })
        } else {
            attr("type"@, "bullet"@)
        }) + (if l.tasklist { attr("tasklist"@, "true"@) } else { seq![] }) + attr("tight"@, bool_text(l.tight)),
        NodeKind::Heading(level) => attr("level"@, dec(level as nat)),
        NodeKind::CodeBlock { info, .. } => code_attrs(info@),
        NodeKind::Link { url, title } => attr("destination"@, escape(url@)) + attr("title"@, escape(title@)),
        NodeKind::Image { url, title } => attr("destination"@, escape(url@)) + attr("title"@, escape(title@)),
        NodeKind::TableCell(a) => match a {
            Alignment::Left => attr("align"@, "left"@),
            Alignment::Center => attr("align"@, "center"@),
            Alignment::Right => attr("align"@, "right"@),
            Alignment::Unaligned => seq![],
        },
        NodeKind::FootnoteDefinition(name) => attr("label"@, escape(name@)),
        NodeKind::FootnoteReference(name) => attr("label"@, escape(name@)),
        NodeKind::TaskItem(done) => attr("completed"@, bool_text(done)),
        NodeKind::Alert { kind, title, multiline } => attr("type"@, alert_type_name(kind)) + (match title {
            Some(t) => attr("title"@, escape(t@)),
            None => seq![],
        }) + (if multiline { attr("multiline"@, "true"@) } else { seq![] }),
        _ => seq![],
    }
}

/// The text a literal node kind holds; `None` for the other kinds.
pub open spec fn kind_literal(k: NodeKind) -> Option<Seq<char>> {
    match k {
        NodeKind::Text(s) => Some(s@),
        NodeKind::Code(s) => Some(s@),
        NodeKind::HtmlInline(s) => Some(s@),
        NodeKind::HtmlBlock(s) => Some(s@),
        NodeKind::CodeBlock { literal, .. } => Some(literal@),
        _ => None,
    }
}

/// The printer's indentation at depth `d` (never more than 40 spaces).
pub open spec fn indent(d: nat) -> Seq<char> {
    spec_repeat(' ', if d > 40 { 40 } else { d })
}

/// The depth of a node's children: two more, but the indentation stops at 40.
pub open spec fn child_depth(d: nat) -> nat {
    if d + 2 > 40 { 40 } else { d + 2 }
}

/// How a node is printed at depth `d`: a literal node on one line with its
/// escaped text; a node without children as one empty element; otherwise an
/// opening line, its children one level deeper, and a closing line.
pub open spec fn xml_node(n: Node, d: nat) -> Seq<char>
    decreases n,
{
    let head = indent(d) + seq!['<'] + kind_name(n.kind) + kind_attrs(n.kind);
    match kind_literal(n.kind) {
        Some(lit) => head + " xml:space=\"preserve\">"@ + escape(lit) + seq!['<', '/'] + kind_name(n.kind) + seq!['>', '\n'],
        None => if n.children@.len() == 0 {
            head + seq![' ', '/', '>', '\n']
        } else {
            head + seq!['>', '\n'] + xml_nodes(n.children@, child_depth(d)) + indent(d) + seq!['<', '/']
                + kind_name(n.kind) + seq!['>', '\n']
        },
    }
}

/// Nodes printed one after another at depth `d`.
pub open spec fn xml_nodes(ns: Seq<Node>, d: nat) -> Seq<char>
    decreases ns,
{
    if ns.len() == 0 {
        seq![]
    } else {
        xml_nodes(ns.drop_last(), d) + xml_node(ns.last(), d)
    }
}

/// The XML declaration and document type that open the printer's output.
pub open spec fn xml_prolog() -> Seq<char> {
    "<?xml version=\"1.0\" encoding=\"UTF-8\"?>\n<!DOCTYPE document SYSTEM \"CommonMark.dtd\">\n"@
}

/// A whole document as the printer writes it.
pub open spec fn xml_document(n: Node) -> Seq<char> {
    xml_prolog() + xml_node(n, 0)
}

/// The names the printer gives the kinds it knows. A tree whose other
/// elements are named otherwise reads back.
pub open spec fn known_name(name: Seq<char>) -> bool {
    ||| name == "document"@ || name == "block_quote"@ || name == "list"@ || name == "item"@
    ||| name == "taskitem"@ || name == "code_block"@ || name == "html_block"@ || name == "paragraph"@
    ||| name == "heading"@ || name == "thematic_break"@ || name == "table"@ || name == "table_row"@
    ||| name == "table_cell"@ || name == "text"@ || name == "softbreak"@ || name == "linebreak"@
    ||| name == "code"@ || name == "html_inline"@ || name == "emph"@ || name == "strong"@
    ||| name == "strikethrough"@ || name == "link"@ || name == "image"@ || name == "footnote_definition"@
    ||| name == "footnote_reference"@ || name == "frontmatter"@ || name == "alert"@
}

/// Whether `name` can be read back as an element name: it is not empty and
/// has no space, slash or `>` in it.
pub open spec fn plain_name(name: Seq<char>) -> bool {
    &&& name.len() > 0
    &&& forall|k: int| 0 <= k < name.len() ==> {
        let c = #[trigger] name[k];
        c != ' ' && c != '/' && c != '>'
    }
}

/// What a code block's `info` attribute ends with: its closing quote and the
/// attribute that every element holding text carries.
pub open spec fn info_end() -> Seq<char> {
    seq!['"', ' ', 'x', 'm', 'l', ':', 's', 'p', 'a', 'c', 'e', '=', '"', 'p', 'r', 'e', 's', 'e', 'r', 'v', 'e', '"', '>']
}

/// The `info` value the printer writes for a math block, up to its closing
/// quote: the language, and the `math_style` attribute after it.
pub open spec fn math_info() -> Seq<char> {
    seq!['m', 'a', 't', 'h', '"', ' ', 'm', 'a', 't', 'h', '_', 's', 't', 'y', 'l', 'e', '=', '"', 'd', 'i', 's', 'p', 'l', 'a', 'y']
}

/// Whether `s` has no line break in it.
pub open spec fn one_line(s: Seq<char>) -> bool {
    forall|k: int| 0 <= k < s.len() ==> #[trigger] s[k] != '\n'
}

/// Whether a node kind prints in a way that reads back: another element's
/// name is plain and not one the printer gives a known kind, and a code
/// block's language, which the printer writes unescaped, is one line (as a
/// fence's info string always is).
pub open spec fn kind_ok(k: NodeKind) -> bool {
    match k {
        NodeKind::Element(name) => plain_name(name@) && !known_name(name@),
        NodeKind::CodeBlock { info, .. } => one_line(info@),
        _ => true,
    }
}

/// Whether a tree prints in a way that reads back: every node that is printed
/// (a literal node's children are not) has a kind that does.
pub open spec fn printable(n: Node) -> bool
    decreases n,
{
    &&& kind_ok(n.kind)
    &&& kind_literal(n.kind) is None ==> forall|k: int| 0 <= k < n.children@.len() ==> printable(#[trigger] n.children@[k])
}

/// A printable kind's name is plain, names a literal kind exactly when the
/// kind is one, and tells which known kind it is.
#[verifier::spinoff_prover]
pub proof fn lemma_kind_named(k: NodeKind)
    requires
        kind_ok(k),
        !(k is Element),
    ensures
        plain_name(kind_name(k)),
        literal_name(kind_name(k)) <==> kind_literal(k) is Some,
        kind_name(k) == "document"@ ==> k is Document,
        kind_name(k) == "block_quote"@ ==> k is BlockQuote,
        kind_name(k) == "list"@ ==> k is List,
        kind_name(k) == "item"@ ==> k is Item,
        kind_name(k) == "taskitem"@ ==> k is TaskItem,
        kind_name(k) == "code_block"@ ==> k is CodeBlock,
        kind_name(k) == "html_block"@ ==> k is HtmlBlock,
        kind_name(k) == "paragraph"@ ==> k is Paragraph,
        kind_name(k) == "heading"@ ==> k is Heading,
        kind_name(k) == "thematic_break"@ ==> k is ThematicBreak,
        kind_name(k) == "table"@ ==> k is Table,
        kind_name(k) == "table_row"@ ==> k is TableRow,
        kind_name(k) == "table_cell"@ ==> k is TableCell,
        kind_name(k) == "text"@ ==> k is Text,
        kind_name(k) == "softbreak"@ ==> k is SoftBreak,
        kind_name(k) == "linebreak"@ ==> k is LineBreak,
        kind_name(k) == "code"@ ==> k is Code,
        kind_name(k) == "html_inline"@ ==> k is HtmlInline,
        kind_name(k) == "emph"@ ==> k is Emph,
        kind_name(k) == "strong"@ ==> k is Strong,
        kind_name(k) == "strikethrough"@ ==> k is Strikethrough,
        kind_name(k) == "link"@ ==> k is Link,
        kind_name(k) == "image"@ ==> k is Image,
        kind_name(k) == "footnote_definition"@ ==> k is FootnoteDefinition,
        kind_name(k) == "footnote_reference"@ ==> k is FootnoteReference,
        kind_name(k) == "frontmatter"@ ==> k is FrontMatter,
        kind_name(k) == "alert"@ ==> k is Alert,
{
    reveal_strlit("document");
    reveal_strlit("block_quote");
    reveal_strlit("list");
    reveal_strlit("item");
    reveal_strlit("taskitem");
    reveal_strlit("code_block");
    reveal_strlit("html_block");
    reveal_strlit("paragraph");
    reveal_strlit("heading");
    reveal_strlit("thematic_break");
    reveal_strlit("table");
    reveal_strlit("table_row");
    reveal_strlit("table_cell");
    reveal_strlit("text");
    reveal_strlit("softbreak");
    reveal_strlit("linebreak");
    reveal_strlit("code");
    reveal_strlit("html_inline");
    reveal_strlit("emph");
    reveal_strlit("strong");
    reveal_strlit("strikethrough");
    reveal_strlit("link");
    reveal_strlit("image");
    reveal_strlit("footnote_definition");
    reveal_strlit("footnote_reference");
    reveal_strlit("frontmatter");
    reveal_strlit("alert");
    assert("document"@.len() == 8 && "document"@[0] == 'd');
    assert("block_quote"@.len() == 11 && "block_quote"@[0] == 'b');
    assert("list"@.len() == 4 && "list"@[0] == 'l');
    assert("item"@.len() == 4 && "item"@[0] == 'i');
    assert("taskitem"@.len() == 8 && "taskitem"@[0] == 't');
    assert("code_block"@.len() == 10 && "code_block"@[0] == 'c');
    assert("html_block"@.len() == 10 && "html_block"@[0] == 'h');
    assert("paragraph"@.len() == 9 && "paragraph"@[0] == 'p');
    assert("heading"@.len() == 7 && "heading"@[0] == 'h');
    assert("thematic_break"@.len() == 14 && "thematic_break"@[0] == 't');
    assert("table"@.len() == 5 && "table"@[0] == 't');
    assert("table_row"@.len() == 9 && "table_row"@[0] == 't');
    assert("table_cell"@.len() == 10 && "table_cell"@[0] == 't');
    assert("text"@.len() == 4 && "text"@[0] == 't');
    assert("softbreak"@.len() == 9 && "softbreak"@[0] == 's');
    assert("linebreak"@.len() == 9 && "linebreak"@[0] == 'l');
    assert("code"@.len() == 4 && "code"@[0] == 'c');
    assert("html_inline"@.len() == 11 && "html_inline"@[0] == 'h');
    assert("emph"@.len() == 4 && "emph"@[0] == 'e');
    assert("strong"@.len() == 6 && "strong"@[0] == 's');
    assert("strikethrough"@.len() == 13 && "strikethrough"@[0] == 's');
    assert("link"@.len() == 4 && "link"@[0] == 'l');
    assert("image"@.len() == 5 && "image"@[0] == 'i');
    assert("footnote_definition"@.len() == 19 && "footnote_definition"@[0] == 'f');
    assert("footnote_reference"@.len() == 18 && "footnote_reference"@[0] == 'f');
    assert("frontmatter"@.len() == 11 && "frontmatter"@[0] == 'f');
    assert("alert"@.len() == 5 && "alert"@[0] == 'a');
    assert("list"@[2] == 's');
    assert("link"@[2] == 'n');
    match k {
        NodeKind::Element(_) => {},
        NodeKind::Document => {},
        NodeKind::BlockQuote => {},
        NodeKind::List(_) => {},
        NodeKind::Item => {},
        NodeKind::TaskItem(_) => {},
        NodeKind::CodeBlock { .. } => {},
        NodeKind::HtmlBlock(_) => {},
        NodeKind::Paragraph => {},
        NodeKind::Heading(_) => {},
        NodeKind::ThematicBreak => {},
        NodeKind::Table => {},
        NodeKind::TableRow => {},
        NodeKind::TableCell(_) => {},
        NodeKind::Text(_) => {},
        NodeKind::SoftBreak => {},
        NodeKind::LineBreak => {},
        NodeKind::Code(_) => {},
        NodeKind::HtmlInline(_) => {},
        NodeKind::Emph => {},
        NodeKind::Strong => {},
        NodeKind::Strikethrough => {},
        NodeKind::Link { .. } => {},
        NodeKind::Image { .. } => {},
        NodeKind::FootnoteDefinition(_) => {},
        NodeKind::FootnoteReference(_) => {},
        NodeKind::FrontMatter => {},
        NodeKind::Alert { .. } => {},
    }
}

pub proof fn lemma_escape_concat(a: Seq<char>, b: Seq<char>)
    ensures
        escape(a + b) == escape(a) + escape(b),
    decreases b.len(),
{
    if b.len() == 0 {
        assert(a + b =~= a);
        assert(escape(a) + escape(b) =~= escape(a));
    } else {
        lemma_escape_concat(a, b.drop_last());
        assert((a + b).drop_last() =~= a + b.drop_last());
        assert(escape(a) + escape(b.drop_last()) + esc_char(b.last()) =~= escape(a) + (escape(b.drop_last()) + esc_char(b.last())));
    }
}

pub proof fn lemma_digit(d: int)
    requires
        0 <= d < 10,
    ensures
        digit(d) as int == 48 + d,
        '0' <= digit(d) <= '9',
{
}

/// A number's decimal digits have no leading zero, unless it is zero.
pub proof fn lemma_dec_first(n: nat)
    ensures
        dec(n).len() >= 1,
        n >= 1 ==> dec(n)[0] != '0',
        n >= 10 ==> dec(n).len() >= 2,
    decreases n,
{
    if n < 10 {
        lemma_digit(n as int);
    } else {
        lemma_dec_first(n / 10);
        assert(dec(n)[0] == dec(n / 10)[0]);
    }
}

/// Every digit `dec` writes is a decimal digit, and its value is the number.
pub proof fn lemma_dec_facts(v: nat)
    ensures
        canonical_digits(dec(v)),
        digits_value(dec(v)) == v,
    decreases v,
{
    lemma_dec_first(v);
    if v < 10 {
        lemma_digit(v as int);
        assert(dec(v).drop_last() =~= Seq::<char>::empty());
        assert(dec(v).last() == digit(v as int));
        assert(digits_value(dec(v)) == digits_value(Seq::<char>::empty()) * 10 + ((dec(v).last() as int - 48) as nat));
    } else {
        lemma_dec_facts(v / 10);
        let p = dec(v / 10);
        assert(dec(v).drop_last() =~= p);
        lemma_digit((v % 10) as int);
        assert(v == (v / 10) * 10 + v % 10);
        assert(dec(v).last() == digit((v % 10) as int));
        assert(digits_value(dec(v)) == digits_value(p) * 10 + ((dec(v).last() as int - 48) as nat));
        assert forall|k: int| 0 <= k < dec(v).len() implies '0' <= #[trigger] dec(v)[k] && dec(v)[k] <= '9' by {
            if k < p.len() {
                assert(dec(v)[k] == p[k]);
            }
        }
    }
}

// --- reading the XML back ---------------------------------------------------------

pub proof fn lemma_join(cs: Seq<char>, a: int, b: int, c: int)
    requires
        0 <= a <= b <= c <= cs.len(),
    ensures
        cs.subrange(a, b) + cs.subrange(b, c) == cs.subrange(a, c),
{
    assert(cs.subrange(a, b) + cs.subrange(b, c) =~= cs.subrange(a, c));
}

/// Whether `s` stands in `cs` from position `i` on.
pub open spec fn occurs_at(cs: Seq<char>, i: int, s: Seq<char>) -> bool {
    0 <= i && i + s.len() <= cs.len() && cs.subrange(i, i + s.len()) == s
}

/// Text stands at `i` exactly when its first part does, and its second part after it.
pub proof fn lemma_occurs_split(cs: Seq<char>, i: int, a: Seq<char>, b: Seq<char>)
    ensures
        occurs_at(cs, i, a + b) <==> (occurs_at(cs, i, a) && occurs_at(cs, i + a.len(), b)),
{
    if occurs_at(cs, i, a + b) {
        assert forall|m: int| 0 <= m < a.len() implies cs.subrange(i, i + a.len())[m] == a[m] by {
            assert(cs.subrange(i, i + (a + b).len())[m] == (a + b)[m]);
        }
        assert(cs.subrange(i, i + a.len()) =~= a);
        assert forall|m: int| 0 <= m < b.len() implies cs.subrange(i + a.len(), i + a.len() + b.len())[m] == b[m] by {
            assert(cs.subrange(i, i + (a + b).len())[a.len() + m] == (a + b)[a.len() + m]);
        }
        assert(cs.subrange(i + a.len(), i + a.len() + b.len()) =~= b);
    }
    if occurs_at(cs, i, a) && occurs_at(cs, i + a.len(), b) {
        assert forall|m: int| 0 <= m < (a + b).len() implies cs.subrange(i, i + (a + b).len())[m] == (a + b)[m] by {
            if m < a.len() {
                assert(cs.subrange(i, i + a.len())[m] == a[m]);
            } else {
                assert(cs.subrange(i + a.len(), i + a.len() + b.len())[m - a.len()] == b[m - a.len()]);
            }
        }
        assert(cs.subrange(i, i + (a + b).len()) =~= a + b);
    }
}

/// The character at `i + k` of text that stands at `i`.
pub proof fn lemma_occurs_char(cs: Seq<char>, i: int, s: Seq<char>, k: int)
    requires
        occurs_at(cs, i, s),
        0 <= k < s.len(),
    ensures
        cs[i + k] == s[k],
{
    assert(cs.subrange(i, i + s.len())[k] == s[k]);
}

/// Two texts that differ at `k`, within both, cannot both stand at `i`.
pub proof fn lemma_occurs_differ(cs: Seq<char>, i: int, a: Seq<char>, b: Seq<char>, k: int)
    requires
        occurs_at(cs, i, a),
        0 <= k < a.len(),
        k < b.len(),
        a[k] != b[k],
    ensures
        !occurs_at(cs, i, b),
{
    lemma_occurs_char(cs, i, a, k);
    if occurs_at(cs, i, b) {
        lemma_occurs_char(cs, i, b, k);
    }
}

/// Whether `lit` appears in `cs` at `i`.
fn looking_at(cs: &Vec<char>, i: usize, lit: &Vec<char>) -> (r: bool)
    ensures
        r == (i + lit@.len() <= cs@.len() && cs@.subrange(i as int, i + lit@.len()) == lit@),
{
    if i > cs.len() || lit.len() > cs.len() - i {
        return false;
    }
    let mut k: usize = 0;
    while k < lit.len()
        invariant
            i + lit@.len() <= cs.len(),
            k <= lit@.len(),
            forall|m: int| 0 <= m < k ==> cs@[i + m] == lit@[m],
        decreases lit@.len() - k,
    {
        if cs[i + k] != lit[k] {
            assert(cs@.subrange(i as int, i + lit@.len())[k as int] != lit@[k as int]);
            return false;
        }
        k = k + 1;
    }
    assert(cs@.subrange(i as int, i + lit@.len()) =~= lit@);
    true
}

/// The position after `lit`, if `cs` has it at `i`.
fn expect(cs: &Vec<char>, i: usize, lit: &str) -> (r: Option<usize>)
    ensures
        r matches Some(j) ==> j == i + lit@.len() && j <= cs@.len() && cs@.subrange(i as int, j as int) == lit@,
        occurs_at(cs@, i as int, lit@) ==> r is Some,
{
    let l = chars_of(lit);
    let n = cs.len();
    if looking_at(cs, i, &l) {
        Some(i + l.len())
    } else {
        None
    }
}

/// Whether `name` spells `s`.
fn is_name(name: &Vec<char>, s: &str) -> (r: bool)
    ensures
        r == (name@ == s@),
{
    let l = chars_of(s);
    if l.len() != name.len() {
        return false;
    }
    let r = looking_at(name, 0, &l);
    assert(name@.subrange(0, l@.len() as int) =~= name@);
    r
}

/// Exactly `d` spaces at `i`.
fn expect_indent(cs: &Vec<char>, i: usize, d: usize) -> (r: Option<usize>)
    requires
        d <= 40,
    ensures
        r matches Some(j) ==> j == i + d && j <= cs@.len() && cs@.subrange(i as int, j as int) == indent(d as nat),
        occurs_at(cs@, i as int, indent(d as nat)) ==> r is Some,
{
    if i > cs.len() || d > cs.len() - i {
        return None;
    }
    let mut k: usize = 0;
    while k < d
        invariant
            i + d <= cs.len(),
            d <= 40,
            k <= d,
            forall|m: int| i <= m < i + k ==> #[trigger] cs@[m] == ' ',
        decreases d - k,
    {
        if cs[i + k] != ' ' {
            proof {
                assert(indent(d as nat).len() == d);
                assert(indent(d as nat)[k as int] == ' ');
                if occurs_at(cs@, i as int, indent(d as nat)) {
                    lemma_occurs_char(cs@, i as int, indent(d as nat), k as int);
                }
            }
            return None;
        }
        k = k + 1;
    }
    assert(cs@.subrange(i as int, i + d) =~= indent(d as nat));
    Some(i + d)
}

pub proof fn lemma_escape_push(s: Seq<char>, c: char)
    ensures
        escape(s.push(c)) == escape(s) + esc_char(c),
{
    assert(s.push(c).drop_last() =~= s);
}

/// How the escaping of `v` splits around its character at `t`.
pub proof fn lemma_escape_at(v: Seq<char>, t: int)
    requires
        0 <= t < v.len(),
    ensures
        escape(v.take(t + 1)) == escape(v.take(t)) + esc_char(v[t]),
        escape(v) == escape(v.take(t)) + (esc_char(v[t]) + escape(v.skip(t + 1))),
{
    assert(v.take(t + 1).drop_last() =~= v.take(t));
    assert(v =~= v.take(t + 1) + v.skip(t + 1));
    lemma_escape_concat(v.take(t + 1), v.skip(t + 1));
}

/// Escaped text from `i` up to the first `stop`, decoded. Only what the
/// printer could have written is accepted: a raw `"`, `&`, `<`, `>` or NUL
/// is refused, and so is any entity but the four the printer uses. Where
/// the escaping of `v` stands at `i`, followed by a quote or `<` as `stop`,
/// it is read to its end.
fn read_escaped(cs: &Vec<char>, i: usize, stop: char, Ghost(v): Ghost<Seq<char>>) -> (r: Option<(Vec<char>, usize)>)
    requires
        i <= cs@.len(),
    ensures
        r matches Some((out, j)) ==> i <= j < cs@.len() && cs@[j as int] == stop
            && escape(out@) == cs@.subrange(i as int, j as int),
        (stop == '"' || stop == '<') && occurs_at(cs@, i as int, escape(v) + seq![stop])
            ==> (r matches Some((_, j)) && j == i + escape(v).len()),
{
    let ghost want = (stop == '"' || stop == '<') && occurs_at(cs@, i as int, escape(v) + seq![stop]);
    let mut out: Vec<char> = Vec::new();
    let mut k = i;
    let ghost mut t: int = 0;
    let quot = chars_of("&quot;");
    let amp = chars_of("&amp;");
    let lt = chars_of("&lt;");
    let gt = chars_of("&gt;");
    proof {
        reveal_strlit("&quot;");
        reveal_strlit("&amp;");
        reveal_strlit("&lt;");
        reveal_strlit("&gt;");
        assert(v.take(0) =~= Seq::<char>::empty());
    }
    assert(cs@.subrange(i as int, i as int) =~= Seq::<char>::empty());
    assert(escape(out@) =~= Seq::<char>::empty());
    while k < cs.len()
        invariant
            i <= k <= cs@.len(),
            escape(out@) == cs@.subrange(i as int, k as int),
            quot@ == seq!['&', 'q', 'u', 'o', 't', ';'],
            amp@ == seq!['&', 'a', 'm', 'p', ';'],
            lt@ == seq!['&', 'l', 't', ';'],
            gt@ == seq!['&', 'g', 't', ';'],
            want == ((stop == '"' || stop == '<') && occurs_at(cs@, i as int, escape(v) + seq![stop])),
            want ==> 0 <= t <= v.len() && k == i + escape(v.take(t)).len(),
        decreases cs@.len() - k,
    {
        let ghost tail = cs@.subrange(0, 0);
        proof {
            if want {
                lemma_occurs_split(cs@, i as int, escape(v), seq![stop]);
                if t < v.len() {
                    lemma_escape_at(v, t);
                    lemma_occurs_split(cs@, i as int, escape(v.take(t)), esc_char(v[t]) + escape(v.skip(t + 1)));
                    lemma_occurs_split(cs@, k as int, esc_char(v[t]), escape(v.skip(t + 1)));
                    lemma_occurs_char(cs@, k as int, esc_char(v[t]), 0);
                    tail = esc_char(v[t]);
                } else {
                    assert(v.take(t) =~= v);
                    lemma_occurs_char(cs@, i + escape(v).len(), seq![stop], 0);
                }
            }
        }
        let c = cs[k];
        if c == stop {
            return Some((out, k));
        }
        let ghost o0 = out@;
        if c == '&' {
            proof {
                if want {
                    let e = esc_char(v[t]);
                    if v[t] == '"' {
                        assert(e =~= quot@);
                    } else if v[t] == '&' {
                        assert(e =~= amp@);
                        lemma_occurs_differ(cs@, k as int, e, quot@, 1);
                    } else if v[t] == '<' {
                        assert(e =~= lt@);
                        lemma_occurs_differ(cs@, k as int, e, quot@, 1);
                        lemma_occurs_differ(cs@, k as int, e, amp@, 1);
                    } else {
                        assert(e =~= gt@);
                        lemma_occurs_differ(cs@, k as int, e, quot@, 1);
                        lemma_occurs_differ(cs@, k as int, e, amp@, 1);
                        lemma_occurs_differ(cs@, k as int, e, lt@, 1);
                    }
                }
            }
            let (d, n) = if looking_at(cs, k, &quot) {
                ('"', 6)
            } else if looking_at(cs, k, &amp) {
                ('&', 5)
            } else if looking_at(cs, k, &lt) {
                ('<', 4)
            } else if looking_at(cs, k, &gt) {
                ('>', 4)
            } else {
                return None;
            };
            out.push(d);
            proof {
                lemma_escape_push(o0, d);
                assert(esc_char(d) == cs@.subrange(k as int, k + n));
                lemma_join(cs@, i as int, k as int, k + n);
                if want {
                    assert(n == tail.len());
                    t = t + 1;
                }
            }
            k = k + n;
        } else if c == '"' || c == '<' || c == '>' || c == '\0' {
            return None;
        } else {
            out.push(c);
            proof {
                lemma_escape_push(o0, c);
                assert(esc_char(c) =~= cs@.subrange(k as int, k + 1));
                lemma_join(cs@, i as int, k as int, k + 1);
                if want {
                    assert(tail.len() == 1);
                    t = t + 1;
                }
            }
            k = k + 1;
        }
    }
    proof {
        if want {
            if t < v.len() {
                lemma_escape_at(v, t);
            } else {
                assert(v.take(t) =~= v);
            }
            lemma_occurs_split(cs@, i as int, escape(v), seq![stop]);
        }
    }
    None
}

/// The value of the decimal digits `ds`.
pub open spec fn digits_value(ds: Seq<char>) -> nat
    decreases ds.len(),
{
    if ds.len() == 0 {
        0
    } else {
        digits_value(ds.drop_last()) * 10 + ((ds.last() as int - 48) as nat)
    }
}

/// Decimal digits without a leading zero (other than `0` itself).
pub open spec fn canonical_digits(ds: Seq<char>) -> bool {
    &&& ds.len() > 0
    &&& forall|k: int| 0 <= k < ds.len() ==> '0' <= #[trigger] ds[k] && ds[k] <= '9'
    &&& (ds[0] == '0' ==> ds.len() == 1)
}

pub proof fn lemma_digits_positive(ds: Seq<char>)
    requires
        canonical_digits(ds),
        ds[0] != '0',
    ensures
        digits_value(ds) >= 1,
    decreases ds.len(),
{
    if ds.len() > 1 {
        let p = ds.drop_last();
        assert(p[0] == ds[0]);
        lemma_digits_positive(p);
    }
}

pub proof fn lemma_dec_digits(ds: Seq<char>)
    requires
        canonical_digits(ds),
    ensures
        dec(digits_value(ds)) == ds,
    decreases ds.len(),
{
    let v = digits_value(ds);
    let last = (ds.last() as int - 48) as nat;
    if ds.len() == 1 {
        assert(ds.drop_last() =~= Seq::<char>::empty());
        assert(digits_value(ds.drop_last()) == 0);
        assert(v == last);
        assert(digit(v as int) == ds[0]);
        assert(dec(v) =~= ds);
    } else {
        let p = ds.drop_last();
        assert(p[0] == ds[0]);
        assert(canonical_digits(p));
        lemma_dec_digits(p);
        lemma_digits_positive(p);
        let pv = digits_value(p);
        assert(v == pv * 10 + last);
        assert(v >= 10) by (nonlinear_arith)
            requires
                v == pv * 10 + last,
                pv >= 1,
        ;
        assert(v / 10 == pv && v % 10 == last) by (nonlinear_arith)
            requires
                v == pv * 10 + last,
                0 <= last < 10,
        ;
        assert(digit(last as int) == ds.last());
        assert(dec(v) =~= ds);
    }
}

/// A decimal number at `i`, as the printer writes one. Where `v`, which fits
/// in a `usize`, is written at `i` and a quote follows, it is read.
fn read_number(cs: &Vec<char>, i: usize, Ghost(v): Ghost<nat>) -> (r: Option<(usize, usize)>)
    requires
        i <= cs@.len(),
    ensures
        r matches Some((n, j)) ==> i < j <= cs@.len() && dec(n as nat) == cs@.subrange(i as int, j as int),
        v <= usize::MAX && occurs_at(cs@, i as int, dec(v) + seq!['"'])
            ==> (r matches Some((_, j)) && j == i + dec(v).len()),
{
    let ghost want = v <= usize::MAX && occurs_at(cs@, i as int, dec(v) + seq!['"']);
    let ghost ds = dec(v);
    proof {
        lemma_dec_facts(v);
        if want {
            lemma_occurs_split(cs@, i as int, ds, seq!['"']);
            lemma_occurs_char(cs@, i + ds.len(), seq!['"'], 0);
        }
    }
    let mut k = i;
    let mut n: usize = 0;
    assert(cs@.subrange(i as int, i as int) =~= Seq::<char>::empty());
    while k < cs.len() && '0' <= cs[k] && cs[k] <= '9'
        invariant
            i <= k <= cs@.len(),
            n == digits_value(cs@.subrange(i as int, k as int)),
            forall|m: int| i <= m < k ==> '0' <= #[trigger] cs@[m] && cs@[m] <= '9',
            ds == dec(v),
            canonical_digits(ds),
            digits_value(ds) == v,
            want == (v <= usize::MAX && occurs_at(cs@, i as int, dec(v) + seq!['"'])),
            want ==> occurs_at(cs@, i as int, ds) && cs@[i + ds.len()] == '"' && k <= i + ds.len()
                && cs@.subrange(i as int, k as int) == ds.take(k - i),
        decreases cs@.len() - k,
    {
        let d = (cs[k] as u32 - 48) as usize;
        proof {
            if want {
                if k == i + ds.len() {
                    assert(cs@[k as int] == '"');
                    assert(false);
                }
                lemma_occurs_char(cs@, i as int, ds, k - i);
                assert(ds.take(k - i + 1) =~= cs@.subrange(i as int, k + 1));
                assert(cs@.subrange(i as int, k + 1).drop_last() =~= cs@.subrange(i as int, k as int));
                crate::cli::lemma_digits_value_prefix(ds, k - i + 1);
                assert(n * 10 + d <= usize::MAX);
                assert(n <= (usize::MAX - d) / 10) by (nonlinear_arith)
                    requires
                        n * 10 + d <= usize::MAX,
                        d <= 9,
                ;
            }
        }
        if n > (usize::MAX - d) / 10 {
            return None;
        }
        proof {
            assert(cs@.subrange(i as int, k + 1).drop_last() =~= cs@.subrange(i as int, k as int));
            assert(n * 10 + d <= usize::MAX) by (nonlinear_arith)
                requires
                    n <= (usize::MAX - d) / 10,
                    d <= 9,
            ;
        }
        n = n * 10 + d;
        k = k + 1;
    }
    proof {
        if want {
            if k < i + ds.len() {
                lemma_occurs_char(cs@, i as int, ds, k - i);
            }
            assert(k == i + ds.len());
            assert(ds.take(k - i) =~= ds);
            assert(cs@[i as int] == ds[0]);
        }
    }
    if k == i || (cs[i] == '0' && k > i + 1) {
        return None;
    }
    proof {
        let ds = cs@.subrange(i as int, k as int);
        assert(canonical_digits(ds));
        lemma_dec_digits(ds);
    }
    Some((n, k))
}

/// The pieces of an attribute that stands at `i`, each where the reader looks for it.
pub proof fn lemma_attr_parts(cs: Seq<char>, i: int, name: Seq<char>, value: Seq<char>)
    requires
        occurs_at(cs, i, attr(name, value)),
    ensures
        occurs_at(cs, i, " "@),
        occurs_at(cs, i + 1, name),
        occurs_at(cs, i + 1 + name.len(), "=\""@),
        occurs_at(cs, i + 3 + name.len(), value),
        occurs_at(cs, i + 3 + name.len(), value + seq!['"']),
        occurs_at(cs, i + 3 + name.len() + value.len(), "\""@),
        attr(name, value).len() == name.len() + value.len() + 4,
        " "@.len() == 1,
        "=\""@.len() == 2,
        "\""@.len() == 1,
{
    reveal_strlit(" ");
    reveal_strlit("=\"");
    reveal_strlit("\"");
    let w = attr(name, value);
    assert(w =~= " "@ + name + "=\""@ + value + "\""@);
    assert("\""@ =~= seq!['"']);
    lemma_occurs_split(cs, i, " "@ + name + "=\""@ + value, "\""@);
    lemma_occurs_split(cs, i, " "@ + name + "=\""@, value);
    lemma_occurs_split(cs, i, " "@ + name, "=\""@);
    lemma_occurs_split(cs, i, " "@, name);
    lemma_occurs_split(cs, i + 3 + name.len(), value, seq!['"']);
}

/// Two values that differ at `k` cannot both be the value of an attribute at `i`.
pub proof fn lemma_values_differ(cs: Seq<char>, i: int, name: Seq<char>, v1: Seq<char>, v2: Seq<char>, k: int)
    requires
        occurs_at(cs, i, attr(name, v1)),
        0 <= k < v1.len(),
        k < v2.len(),
        v1[k] != v2[k],
    ensures
        !occurs_at(cs, i, attr(name, v2)),
{
    lemma_attr_parts(cs, i, name, v1);
    if occurs_at(cs, i, attr(name, v2)) {
        lemma_attr_parts(cs, i, name, v2);
        lemma_occurs_differ(cs, i + 3 + name.len(), v1, v2, k);
    }
}

/// Two names that differ at `k` cannot both name an attribute at `i`.
pub proof fn lemma_names_differ(cs: Seq<char>, i: int, n1: Seq<char>, v1: Seq<char>, n2: Seq<char>, v2: Seq<char>, k: int)
    requires
        occurs_at(cs, i, attr(n1, v1)),
        0 <= k < n1.len(),
        k < n2.len(),
        n1[k] != n2[k],
    ensures
        !occurs_at(cs, i, attr(n2, v2)),
{
    lemma_attr_parts(cs, i, n1, v1);
    if occurs_at(cs, i, attr(n2, v2)) {
        lemma_attr_parts(cs, i, n2, v2);
        lemma_occurs_differ(cs, i + 1, n1, n2, k);
    }
}

/// An attribute's value is read back from it.
pub proof fn lemma_attr_value(name: Seq<char>, a: Seq<char>, b: Seq<char>)
    requires
        attr(name, a) == attr(name, b),
    ensures
        a == b,
{
    reveal_strlit("=\"");
    let n = name.len() as int;
    assert(attr(name, a).len() == n + a.len() + 4);
    assert(attr(name, b).len() == n + b.len() + 4);
    assert(attr(name, a).subrange(3 + n, 3 + n + a.len()) =~= a);
    assert(attr(name, b).subrange(3 + n, 3 + n + b.len()) =~= b);
}

/// Whether an opening tag ends at `p`, empty or not.
pub open spec fn tag_end(cs: Seq<char>, p: int) -> bool {
    occurs_at(cs, p, " />\n"@) || occurs_at(cs, p, ">\n"@)
}

/// No attribute stands where an opening tag ends.
pub proof fn lemma_no_attr_at_end(cs: Seq<char>, p: int, name: Seq<char>, value: Seq<char>)
    requires
        tag_end(cs, p),
        name.len() > 0,
        name[0] != '/',
    ensures
        !occurs_at(cs, p, attr(name, value)),
{
    reveal_strlit(" />\n");
    reveal_strlit(">\n");
    let w = attr(name, value);
    assert(w[0] == ' ');
    assert(w[1] == name[0]);
    if occurs_at(cs, p, " />\n"@) {
        assert(" />\n"@[1] == '/');
        lemma_occurs_differ(cs, p, " />\n"@, w, 1);
    } else {
        assert(">\n"@[0] == '>');
        lemma_occurs_differ(cs, p, ">\n"@, w, 0);
    }
}

/// ` name="value"` at `i`, for a fixed value.
fn expect_attr(cs: &Vec<char>, i: usize, name: &str, value: &str) -> (r: Option<usize>)
    ensures
        r matches Some(j) ==> i <= j <= cs@.len() && cs@.subrange(i as int, j as int) == attr(name@, value@),
        r is Some <==> occurs_at(cs@, i as int, attr(name@, value@)),
{
    proof {
        if occurs_at(cs@, i as int, attr(name@, value@)) {
            lemma_attr_parts(cs@, i as int, name@, value@);
        }
    }
    let a = expect(cs, i, " ")?;
    let b = expect(cs, a, name)?;
    let c = expect(cs, b, "=\"")?;
    let d = expect(cs, c, value)?;
    let e = expect(cs, d, "\"")?;
    proof {
        reveal_strlit(" ");
        reveal_strlit("\"");
        lemma_join(cs@, i as int, a as int, b as int);
        lemma_join(cs@, i as int, b as int, c as int);
        lemma_join(cs@, i as int, c as int, d as int);
        lemma_join(cs@, i as int, d as int, e as int);
        assert(cs@.subrange(i as int, e as int) =~= attr(name@, value@));
    }
    Some(e)
}

/// ` name="value"` at `i`, with the value escaped; the value decoded.
fn attr_escaped(cs: &Vec<char>, i: usize, name: &str, Ghost(want): Ghost<Seq<char>>) -> (r: Option<(Vec<char>, usize)>)
    ensures
        r matches Some((v, j)) ==> i <= j <= cs@.len() && cs@.subrange(i as int, j as int) == attr(name@, escape(v@)),
        occurs_at(cs@, i as int, attr(name@, escape(want)))
            ==> (r matches Some((_, j)) && j == i + attr(name@, escape(want)).len()),
{
    proof {
        if occurs_at(cs@, i as int, attr(name@, escape(want))) {
            lemma_attr_parts(cs@, i as int, name@, escape(want));
        }
    }
    let a = expect(cs, i, " ")?;
    let b = expect(cs, a, name)?;
    let c = expect(cs, b, "=\"")?;
    let (v, d) = read_escaped(cs, c, '"', Ghost(want))?;
    let e = expect(cs, d, "\"")?;
    proof {
        reveal_strlit(" ");
        reveal_strlit("\"");
        lemma_join(cs@, i as int, a as int, b as int);
        lemma_join(cs@, i as int, b as int, c as int);
        lemma_join(cs@, i as int, c as int, d as int);
        lemma_join(cs@, i as int, d as int, e as int);
        assert(cs@.subrange(i as int, e as int) =~= attr(name@, escape(v@)));
    }
    Some((v, e))
}

/// ` name="N"` at `i`, for a decimal number.
fn attr_number(cs: &Vec<char>, i: usize, name: &str, Ghost(want): Ghost<nat>) -> (r: Option<(usize, usize)>)
    ensures
        r matches Some((n, j)) ==> i <= j <= cs@.len() && cs@.subrange(i as int, j as int) == attr(name@, dec(n as nat)),
        want <= usize::MAX && occurs_at(cs@, i as int, attr(name@, dec(want)))
            ==> (r matches Some((_, j)) && j == i + attr(name@, dec(want)).len()),
{
    proof {
        if occurs_at(cs@, i as int, attr(name@, dec(want))) {
            lemma_attr_parts(cs@, i as int, name@, dec(want));
        }
    }
    let a = expect(cs, i, " ")?;
    let b = expect(cs, a, name)?;
    let c = expect(cs, b, "=\"")?;
    let (n, d) = read_number(cs, c, Ghost(want))?;
    let e = expect(cs, d, "\"")?;
    proof {
        reveal_strlit(" ");
        reveal_strlit("\"");
        lemma_join(cs@, i as int, a as int, b as int);
        lemma_join(cs@, i as int, b as int, c as int);
        lemma_join(cs@, i as int, c as int, d as int);
        lemma_join(cs@, i as int, d as int, e as int);
        assert(cs@.subrange(i as int, e as int) =~= attr(name@, dec(n as nat)));
    }
    Some((n, e))
}

/// ` name="true"` or ` name="false"` at `i`.
fn attr_bool(cs: &Vec<char>, i: usize, name: &str, Ghost(want): Ghost<bool>) -> (r: Option<(bool, usize)>)
    ensures
        r matches Some((b, j)) ==> i <= j <= cs@.len() && cs@.subrange(i as int, j as int) == attr(name@, bool_text(b)),
        occurs_at(cs@, i as int, attr(name@, bool_text(want)))
            ==> (r matches Some((_, j)) && j == i + attr(name@, bool_text(want)).len()),
{
    proof {
        reveal_strlit("true");
        reveal_strlit("false");
        if occurs_at(cs@, i as int, attr(name@, bool_text(want))) && !want {
            reveal_strlit(" ");
            reveal_strlit("=\"");
            let k = 3 + name@.len() as int;
            assert(attr(name@, "false"@)[k] == 'f');
            assert(attr(name@, "true"@)[k] == 't');
            lemma_occurs_differ(cs@, i as int, attr(name@, "false"@), attr(name@, "true"@), k);
        }
    }
    match expect_attr(cs, i, name, "true") {
        Some(j) => Some((true, j)),
        None => {
            let j = expect_attr(cs, i, name, "false")?;
            Some((false, j))
        },
    }
}

/// Whether `c` ends an element name: a space, `/` or `>`.
pub open spec fn ends_name(c: char) -> bool {
    c == ' ' || c == '/' || c == '>'
}

/// An element name at `i`: the characters up to a space, `/` or `>`.
fn read_name(cs: &Vec<char>, i: usize) -> (r: Option<(Vec<char>, usize)>)
    requires
        i <= cs@.len(),
    ensures
        r matches Some((name, j)) ==> i < j <= cs@.len() && name@ == cs@.subrange(i as int, j as int)
            && (j == cs@.len() || ends_name(cs@[j as int]))
            && forall|m: int| i <= m < j ==> !ends_name(#[trigger] cs@[m]),
        r is None ==> i == cs@.len() || ends_name(cs@[i as int]),
{
    let mut name: Vec<char> = Vec::new();
    let mut k = i;
    while k < cs.len() && cs[k] != ' ' && cs[k] != '/' && cs[k] != '>'
        invariant
            i <= k <= cs@.len(),
            name@ == cs@.subrange(i as int, k as int),
            forall|m: int| i <= m < k ==> !ends_name(#[trigger] cs@[m]),
        decreases cs@.len() - k,
    {
        name.push(cs[k]);
        k = k + 1;
        assert(name@ =~= cs@.subrange(i as int, k as int));
    }
    if k == i {
        return None;
    }
    Some((name, k))
}

/// `name` at `i`.
fn expect_name(cs: &Vec<char>, i: usize, name: &Vec<char>) -> (r: Option<usize>)
    ensures
        r matches Some(j) ==> i <= j <= cs@.len() && cs@.subrange(i as int, j as int) == name@,
        occurs_at(cs@, i as int, name@) ==> r is Some,
{
    let n = cs.len();
    if looking_at(cs, i, name) {
        Some(i + name.len())
    } else {
        None
    }
}

/// The attributes of a list at `i`. Where the attributes of the list `want`
/// stand there and the opening tag ends after them, they are read to that end.
#[verifier::spinoff_prover]
#[verifier::rlimit(40)]
fn list_attrs(cs: &Vec<char>, i: usize, Ghost(want): Ghost<ListInfo>) -> (r: Option<(ListInfo, usize)>)
    ensures
        r matches Some((l, j)) ==> i <= j <= cs@.len() && cs@.subrange(i as int, j as int) == kind_attrs(NodeKind::List(l)),
        occurs_at(cs@, i as int, kind_attrs(NodeKind::List(want)))
            && tag_end(cs@, i + kind_attrs(NodeKind::List(want)).len())
            ==> (r matches Some((_, j)) && j == i + kind_attrs(NodeKind::List(want)).len()),
{
    let ghost w = want;
    let ghost ty = if w.ordered {
        attr("type"@, "ordered"@) + attr("start"@, dec(w.start as nat))
            + attr("delim"@, if w.paren { "paren"@ } else { "period"@ })
    } else {
        attr("type"@, "bullet"@)
    };
    let ghost task = if w.tasklist { attr("tasklist"@, "true"@) } else { seq![] };
    let ghost tight = attr("tight"@, bool_text(w.tight));
    let ghost ok = occurs_at(cs@, i as int, kind_attrs(NodeKind::List(want)))
        && tag_end(cs@, i + kind_attrs(NodeKind::List(want)).len());
    proof {
        reveal_strlit("bullet");
        reveal_strlit("ordered");
        reveal_strlit("paren");
        reveal_strlit("period");
        reveal_strlit("tight");
        reveal_strlit("tasklist");
        assert("bullet"@.len() == 6 && "bullet"@[0] == 'b');
        assert("ordered"@.len() == 7 && "ordered"@[0] == 'o');
        assert("paren"@.len() == 5 && "paren"@[1] == 'a');
        assert("period"@.len() == 6 && "period"@[1] == 'e');
        assert("tight"@.len() == 5 && "tight"@[2] == 'g');
        assert("tasklist"@.len() == 8 && "tasklist"@[2] == 's');
        if ok {
            assert(kind_attrs(NodeKind::List(want)) == ty + task + tight);
            lemma_occurs_split(cs@, i as int, ty + task, tight);
            lemma_occurs_split(cs@, i as int, ty, task);
            if w.ordered {
                let t1 = attr("type"@, "ordered"@);
                let t2 = attr("start"@, dec(w.start as nat));
                lemma_occurs_split(cs@, i as int, t1 + t2, attr("delim"@, if w.paren { "paren"@ } else { "period"@ }));
                lemma_occurs_split(cs@, i as int, t1, t2);
                lemma_values_differ(cs@, i as int, "type"@, "ordered"@, "bullet"@, 0);
                if !w.paren {
                    lemma_values_differ(cs@, i + t1.len() + t2.len(), "delim"@, "period"@, "paren"@, 1);
                }
            }
            if !w.tasklist {
                assert(task =~= Seq::<char>::empty());
                lemma_names_differ(cs@, i + ty.len(), "tight"@, bool_text(w.tight), "tasklist"@, "true"@, 2);
            }
        }
    }
    let (ordered, start, paren, p) = match expect_attr(cs, i, "type", "bullet") {
        Some(p1) => (false, 0usize, false, p1),
        None => {
            let p1 = expect_attr(cs, i, "type", "ordered")?;
            let (start, p2) = attr_number(cs, p1, "start", Ghost(w.start as nat))?;
            let (paren, p3) = match expect_attr(cs, p2, "delim", "paren") {
                Some(q) => (true, q),
                None => (false, expect_attr(cs, p2, "delim", "period")?),
            };
            proof {
                lemma_join(cs@, i as int, p1 as int, p2 as int);
                lemma_join(cs@, i as int, p2 as int, p3 as int);
            }
            (true, start, paren, p3)
        },
    };
    proof {
        if ok {
            assert(p == i + ty.len());
        }
    }
    let (tasklist, p4) = match expect_attr(cs, p, "tasklist", "true") {
        Some(q) => (true, q),
        None => (false, p),
    };
    let (tight_b, p5) = attr_bool(cs, p4, "tight", Ghost(w.tight))?;
    let info = ListInfo { ordered, start, paren, tasklist, tight: tight_b };
    proof {
        assert(cs@.subrange(p as int, p as int) =~= Seq::<char>::empty());
        lemma_join(cs@, i as int, p as int, p4 as int);
        lemma_join(cs@, i as int, p4 as int, p5 as int);
        assert(cs@.subrange(i as int, p5 as int) =~= kind_attrs(NodeKind::List(info)));
    }
    Some((info, p5))
}

/// The alignment attribute of a table cell at `i`, if there is one. Where the
/// attributes of a cell aligned as `want` stand there and the opening tag
/// ends after them, they are read to that end.
fn cell_attrs(cs: &Vec<char>, i: usize, Ghost(want): Ghost<Alignment>) -> (r: (Alignment, usize))
    requires
        i <= cs@.len(),
    ensures
        i <= r.1 <= cs@.len(),
        cs@.subrange(i as int, r.1 as int) == kind_attrs(NodeKind::TableCell(r.0)),
        occurs_at(cs@, i as int, kind_attrs(NodeKind::TableCell(want)))
            && tag_end(cs@, i + kind_attrs(NodeKind::TableCell(want)).len())
            ==> r.1 == i + kind_attrs(NodeKind::TableCell(want)).len(),
{
    proof {
        reveal_strlit("left");
        reveal_strlit("center");
        reveal_strlit("right");
        reveal_strlit("align");
        assert("left"@.len() == 4 && "left"@[0] == 'l');
        assert("center"@.len() == 6 && "center"@[0] == 'c');
        assert("right"@.len() == 5 && "right"@[0] == 'r');
        assert("align"@.len() == 5 && "align"@[0] == 'a');
        let ii = i as int;
        if occurs_at(cs@, ii, kind_attrs(NodeKind::TableCell(want)))
            && tag_end(cs@, i + kind_attrs(NodeKind::TableCell(want)).len()) {
            match want {
                Alignment::Left => {},
                Alignment::Center => {
                    lemma_values_differ(cs@, ii, "align"@, "center"@, "left"@, 0);
                },
                Alignment::Right => {
                    lemma_values_differ(cs@, ii, "align"@, "right"@, "left"@, 0);
                    lemma_values_differ(cs@, ii, "align"@, "right"@, "center"@, 0);
                },
                Alignment::Unaligned => {
                    lemma_no_attr_at_end(cs@, ii, "align"@, "left"@);
                    lemma_no_attr_at_end(cs@, ii, "align"@, "center"@);
                    lemma_no_attr_at_end(cs@, ii, "align"@, "right"@);
                },
            }
        }
    }
    if let Some(j) = expect_attr(cs, i, "align", "left") {
        (Alignment::Left, j)
    } else if let Some(j) = expect_attr(cs, i, "align", "center") {
        (Alignment::Center, j)
    } else if let Some(j) = expect_attr(cs, i, "align", "right") {
        (Alignment::Right, j)
    } else {
        assert(cs@.subrange(i as int, i as int) =~= Seq::<char>::empty());
        (Alignment::Unaligned, i)
    }
}

/// The attributes of an alert at `i`. Where the attributes of the alert
/// `want` stand there and the opening tag ends after them, they are read to
/// that end.
#[verifier::spinoff_prover]
#[verifier::rlimit(60)]
fn alert_attrs(cs: &Vec<char>, i: usize, Ghost(want): Ghost<NodeKind>) -> (r: Option<(NodeKind, usize)>)
    ensures
        r matches Some((k, j)) ==> i <= j <= cs@.len() && k is Alert && cs@.subrange(i as int, j as int) == kind_attrs(k),
        want is Alert && occurs_at(cs@, i as int, kind_attrs(want)) && tag_end(cs@, i + kind_attrs(want).len())
            ==> (r matches Some((_, j)) && j == i + kind_attrs(want).len()),
{
    let ghost ok = want is Alert && occurs_at(cs@, i as int, kind_attrs(want)) && tag_end(cs@, i + kind_attrs(want).len());
    let ghost ty = if want is Alert { attr("type"@, alert_type_name(want->Alert_kind)) } else { seq![] };
    let ghost ti = if want is Alert {
        match want->Alert_title {
            Some(t) => attr("title"@, escape(t@)),
            None => seq![],
        }
    } else {
        seq![]
    };
    let ghost ml = if want is Alert && want->Alert_multiline { attr("multiline"@, "true"@) } else { seq![] };
    proof {
        reveal_strlit("note");
        reveal_strlit("tip");
        reveal_strlit("important");
        reveal_strlit("warning");
        reveal_strlit("caution");
        reveal_strlit("title");
        reveal_strlit("multiline");
        assert("note"@.len() == 4 && "note"@[0] == 'n');
        assert("tip"@.len() == 3 && "tip"@[0] == 't');
        assert("important"@.len() == 9 && "important"@[0] == 'i');
        assert("warning"@.len() == 7 && "warning"@[0] == 'w');
        assert("caution"@.len() == 7 && "caution"@[0] == 'c');
        assert("title"@.len() == 5 && "title"@[0] == 't');
        assert("multiline"@.len() == 9 && "multiline"@[0] == 'm');
        let ii = i as int;
        if ok {
            assert(kind_attrs(want) == ty + ti + ml);
            lemma_occurs_split(cs@, ii, ty + ti, ml);
            lemma_occurs_split(cs@, ii, ty, ti);
            let v = alert_type_name(want->Alert_kind);
            if v != "note"@ {
                lemma_values_differ(cs@, ii, "type"@, v, "note"@, 0);
            }
            if v != "tip"@ {
                lemma_values_differ(cs@, ii, "type"@, v, "tip"@, 0);
            }
            if v != "important"@ {
                lemma_values_differ(cs@, ii, "type"@, v, "important"@, 0);
            }
            if v != "warning"@ {
                lemma_values_differ(cs@, ii, "type"@, v, "warning"@, 0);
            }
            let p1 = ii + ty.len();
            let p2 = p1 + ti.len();
            if want->Alert_title is None {
                assert(ti =~= Seq::<char>::empty());
                if want->Alert_multiline {
                    assert forall|t: Seq<char>| !occurs_at(cs@, p1, #[trigger] attr("title"@, t)) by {
                        lemma_names_differ(cs@, p1, "multiline"@, "true"@, "title"@, t, 0);
                    }
                } else {
                    assert(ml =~= Seq::<char>::empty());
                    assert forall|t: Seq<char>| !occurs_at(cs@, p1, #[trigger] attr("title"@, t)) by {
                        lemma_no_attr_at_end(cs@, p1, "title"@, t);
                    }
                }
            }
            if !want->Alert_multiline {
                assert(ml =~= Seq::<char>::empty());
                lemma_no_attr_at_end(cs@, p2, "multiline"@, "true"@);
            }
        }
    }
    let (kind, p1) = if let Some(q) = expect_attr(cs, i, "type", "note") {
        (AlertKind::Note, q)
    } else if let Some(q) = expect_attr(cs, i, "type", "tip") {
        (AlertKind::Tip, q)
    } else if let Some(q) = expect_attr(cs, i, "type", "important") {
        (AlertKind::Important, q)
    } else if let Some(q) = expect_attr(cs, i, "type", "warning") {
        (AlertKind::Warning, q)
    } else {
        (AlertKind::Caution, expect_attr(cs, i, "type", "caution")?)
    };
    proof {
        if ok {
            assert(p1 == i + ty.len());
        }
    }
    let ghost want_title = if want is Alert && want->Alert_title is Some { want->Alert_title.unwrap()@ } else { Seq::<char>::empty() };
    let (title, p2) = match attr_escaped(cs, p1, "title", Ghost(want_title)) {
        Some((t, q)) => {
            proof {
                if ok && want->Alert_title is None {
                    assert(occurs_at(cs@, p1 as int, attr("title"@, escape(t@))));
                }
            }
            (Some(string_of(t.as_slice())), q)
        },
        None => (None, p1),
    };
    let (multiline, p3) = match expect_attr(cs, p2, "multiline", "true") {
        Some(q) => (true, q),
        None => (false, p2),
    };
    let k = NodeKind::Alert { kind, title, multiline };
    proof {
        assert(cs@.subrange(p1 as int, p1 as int) =~= Seq::<char>::empty());
        assert(cs@.subrange(p2 as int, p2 as int) =~= Seq::<char>::empty());
        lemma_join(cs@, i as int, p1 as int, p2 as int);
        lemma_join(cs@, i as int, p2 as int, p3 as int);
        assert(cs@.subrange(i as int, p3 as int) =~= kind_attrs(k));
    }
    Some((k, p3))
}

/// The attributes of a non-literal element named `name` at `i`, and the
/// kind they describe. Where the attributes of a printable kind `want` so
/// named stand there and the opening tag ends after them, they are read to
/// that end.
#[verifier::spinoff_prover]
fn parse_attrs(cs: &Vec<char>, i: usize, name: &Vec<char>, Ghost(want): Ghost<NodeKind>) -> (r: Option<(NodeKind, usize)>)
    ensures
        r matches Some((k, j)) ==> i <= j <= cs@.len() && kind_name(k) == name@
            && (kind_literal(k) is None || literal_name(name@))
            && cs@.subrange(i as int, j as int) == kind_attrs(k)
            && (plain_name(name@) && !literal_name(name@) ==> kind_ok(k)),
        kind_ok(want) && kind_literal(want) is None && kind_name(want) == name@
            && occurs_at(cs@, i as int, kind_attrs(want)) && tag_end(cs@, i + kind_attrs(want).len())
            ==> (r matches Some((_, j)) && j == i + kind_attrs(want).len()),
{
    let ghost ok = kind_ok(want) && kind_literal(want) is None && kind_name(want) == name@
        && occurs_at(cs@, i as int, kind_attrs(want)) && tag_end(cs@, i + kind_attrs(want).len());
    proof {
        if ok && !(want is Element) {
            lemma_kind_named(want);
        }
    }
    if i > cs.len() {
        return None;
    }
    assert(cs@.subrange(i as int, i as int) =~= Seq::<char>::empty());
    if is_name(name, "document") {
        let j = expect_attr(cs, i, "xmlns", "http://commonmark.org/xml/1.0")?;
        Some((NodeKind::Document, j))
    } else if is_name(name, "block_quote") {
        Some((NodeKind::BlockQuote, i))
    } else if is_name(name, "item") {
        Some((NodeKind::Item, i))
    } else if is_name(name, "paragraph") {
        Some((NodeKind::Paragraph, i))
    } else if is_name(name, "thematic_break") {
        Some((NodeKind::ThematicBreak, i))
    } else if is_name(name, "table") {
        Some((NodeKind::Table, i))
    } else if is_name(name, "table_row") {
        Some((NodeKind::TableRow, i))
    } else if is_name(name, "softbreak") {
        Some((NodeKind::SoftBreak, i))
    } else if is_name(name, "linebreak") {
        Some((NodeKind::LineBreak, i))
    } else if is_name(name, "emph") {
        Some((NodeKind::Emph, i))
    } else if is_name(name, "strong") {
        Some((NodeKind::Strong, i))
    } else if is_name(name, "strikethrough") {
        Some((NodeKind::Strikethrough, i))
    } else if is_name(name, "frontmatter") {
        Some((NodeKind::FrontMatter, i))
    } else if is_name(name, "list") {
        let ghost wl = if want is List { want->List_0 } else { ListInfo { ordered: false, start: 0, paren: false, tasklist: false, tight: false } };
        let (info, j) = list_attrs(cs, i, Ghost(wl))?;
        Some((NodeKind::List(info), j))
    } else if is_name(name, "heading") {
        let ghost wl: nat = if want is Heading { want->Heading_0 as nat } else { 0 };
        let (level, j) = attr_number(cs, i, "level", Ghost(wl))?;
        proof {
            if ok {
                lemma_attr_value("level"@, dec(level as nat), dec(wl));
                lemma_dec_facts(level as nat);
                lemma_dec_facts(wl);
            }
        }
        if level > 255 {
            return None;
        }
        Some((NodeKind::Heading(level as u8), j))
    } else if is_name(name, "link") || is_name(name, "image") {
        let ghost (wu, wt) = if want is Link {
            (want->Link_url@, want->Link_title@)
        } else if want is Image {
            (want->Image_url@, want->Image_title@)
        } else {
            (Seq::<char>::empty(), Seq::<char>::empty())
        };
        proof {
            if ok {
                lemma_occurs_split(cs@, i as int, attr("destination"@, escape(wu)), attr("title"@, escape(wt)));
            }
        }
        let (url, p1) = attr_escaped(cs, i, "destination", Ghost(wu))?;
        let (title, p2) = attr_escaped(cs, p1, "title", Ghost(wt))?;
        proof { lemma_join(cs@, i as int, p1 as int, p2 as int); }
        let url = string_of(url.as_slice());
        let title = string_of(title.as_slice());
        if is_name(name, "link") {
            Some((NodeKind::Link { url, title }, p2))
        } else {
            Some((NodeKind::Image { url, title }, p2))
        }
    } else if is_name(name, "table_cell") {
        let ghost wa = if want is TableCell { want->TableCell_0 } else { Alignment::Unaligned };
        let (a, j) = cell_attrs(cs, i, Ghost(wa));
        Some((NodeKind::TableCell(a), j))
    } else if is_name(name, "footnote_definition") || is_name(name, "footnote_reference") {
        let ghost wl = if want is FootnoteDefinition {
            want->FootnoteDefinition_0@
        } else if want is FootnoteReference {
            want->FootnoteReference_0@
        } else {
            Seq::<char>::empty()
        };
        let (label, j) = attr_escaped(cs, i, "label", Ghost(wl))?;
        let label = string_of(label.as_slice());
        if is_name(name, "footnote_definition") {
            Some((NodeKind::FootnoteDefinition(label), j))
        } else {
            Some((NodeKind::FootnoteReference(label), j))
        }
    } else if is_name(name, "taskitem") {
        let ghost wd = if want is TaskItem { want->TaskItem_0 } else { false };
        let (done, j) = attr_bool(cs, i, "completed", Ghost(wd))?;
        Some((NodeKind::TaskItem(done), j))
    } else if is_name(name, "alert") {
        alert_attrs(cs, i, Ghost(want))
    } else {
        let copy = string_of(name.as_slice());
        Some((NodeKind::Element(copy), i))
    }
}

/// A closing tag for `name` at depth `d`, at `i`.
fn closing_at(cs: &Vec<char>, i: usize, d: usize, name: &Vec<char>) -> (r: Option<usize>)
    requires
        d <= 40,
    ensures
        r matches Some(j) ==> i <= j <= cs@.len()
            && cs@.subrange(i as int, j as int) == indent(d as nat) + seq!['<', '/'] + name@ + seq!['>', '\n'],
        occurs_at(cs@, i as int, indent(d as nat) + seq!['<', '/'] + name@ + seq!['>', '\n']) ==> r is Some,
{
    proof {
        reveal_strlit("</");
        reveal_strlit(">\n");
        let ii = i as int;
        let dd = indent(d as nat);
        if occurs_at(cs@, ii, dd + seq!['<', '/'] + name@ + seq!['>', '\n']) {
            assert(seq!['<', '/'] =~= "</"@);
            assert(seq!['>', '\n'] =~= ">\n"@);
            lemma_occurs_split(cs@, ii, dd + "</"@ + name@, ">\n"@);
            lemma_occurs_split(cs@, ii, dd + "</"@, name@);
            lemma_occurs_split(cs@, ii, dd, "</"@);
        }
    }
    let a = expect_indent(cs, i, d)?;
    let b = expect(cs, a, "</")?;
    let c = expect_name(cs, b, name)?;
    let e = expect(cs, c, ">\n")?;
    proof {
        reveal_strlit("</");
        reveal_strlit(">\n");
        lemma_join(cs@, i as int, a as int, b as int);
        lemma_join(cs@, i as int, b as int, c as int);
        lemma_join(cs@, i as int, c as int, e as int);
        assert(cs@.subrange(i as int, e as int) =~= indent(d as nat) + seq!['<', '/'] + name@ + seq!['>', '\n']);
    }
    Some(e)
}

/// The first place at or after `from` where `pat` stands.
fn find_first(cs: &Vec<char>, from: usize, pat: &Vec<char>) -> (r: Option<usize>)
    requires
        from <= cs@.len(),
    ensures
        r matches Some(q) ==> from <= q <= cs@.len() && occurs_at(cs@, q as int, pat@)
            && forall|p: int| from <= p < q ==> !#[trigger] occurs_at(cs@, p, pat@),
        r is None ==> forall|p: int| from <= p <= cs@.len() ==> !#[trigger] occurs_at(cs@, p, pat@),
{
    let mut k = from;
    while k < cs.len()
        invariant
            from <= k <= cs@.len(),
            forall|p: int| from <= p < k ==> !#[trigger] occurs_at(cs@, p, pat@),
        decreases cs@.len() - k,
    {
        if looking_at(cs, k, pat) {
            return Some(k);
        }
        k = k + 1;
    }
    if looking_at(cs, k, pat) {
        return Some(k);
    }
    None
}

/// Two ends of an `info` attribute never overlap: the one that stands later
/// starts after the earlier one is over.
proof fn lemma_info_end_apart(cs: Seq<char>, a: int, b: int)
    requires
        occurs_at(cs, a, info_end()),
        occurs_at(cs, b, info_end()),
        a < b,
    ensures
        a + info_end().len() <= b,
{
    let x = info_end();
    if b < a + x.len() {
        let d = b - a;
        lemma_occurs_char(cs, a, x, d);
        lemma_occurs_char(cs, b, x, 0);
        lemma_occurs_char(cs, b, x, 1);
        if d == 12 || d == 21 {
            lemma_occurs_char(cs, a, x, d + 1);
        }
    }
}

/// The printer's escaping never writes a quote.
proof fn lemma_escape_no_quote(s: Seq<char>)
    ensures
        forall|k: int| 0 <= k < escape(s).len() ==> #[trigger] escape(s)[k] != '"',
    decreases s.len(),
{
    if s.len() > 0 {
        lemma_escape_no_quote(s.drop_last());
        let e0 = escape(s.drop_last());
        let ec = esc_char(s.last());
        assert forall|k: int| 0 <= k < escape(s).len() implies #[trigger] escape(s)[k] != '"' by {
            if k < e0.len() {
                assert(escape(s)[k] == e0[k]);
            } else {
                assert(escape(s)[k] == ec[k - e0.len()]);
            }
        }
    }
}

/// What follows a literal element's attributes: the space attribute, the
/// escaped text, and the closing tag.
pub open spec fn literal_tail(lit: Seq<char>, name: Seq<char>) -> Seq<char> {
    " xml:space=\"preserve\">"@ + escape(lit) + seq!['<', '/'] + name + seq!['>', '\n']
}

/// The rest of an element that holds escaped text, from where its attributes
/// end at `p`. Where the rest of such an element holding `lit` is printed
/// there, it is read to its end.
fn read_tail(cs: &Vec<char>, p: usize, name: &Vec<char>, Ghost(lit): Ghost<Seq<char>>) -> (r: Option<(Vec<char>, usize)>)
    requires
        p <= cs@.len(),
    ensures
        r matches Some((t, k)) ==> p <= k <= cs@.len() && cs@.subrange(p as int, k as int) == literal_tail(t@, name@),
        occurs_at(cs@, p as int, literal_tail(lit, name@))
            ==> (r matches Some((_, k)) && k == p + literal_tail(lit, name@).len()),
{
    proof {
        reveal_strlit("</");
        reveal_strlit(">\n");
        if occurs_at(cs@, p as int, literal_tail(lit, name@)) {
            let x = " xml:space=\"preserve\">"@;
            let e = escape(lit);
            let c = seq!['<', '/'];
            let pp = p as int;
            lemma_occurs_split(cs@, pp, x + e + c + name@, seq!['>', '\n']);
            lemma_occurs_split(cs@, pp, x + e + c, name@);
            lemma_occurs_split(cs@, pp, x + e, c);
            lemma_occurs_split(cs@, pp, x, e);
            assert(c =~= seq!['<'] + seq!['/']);
            lemma_occurs_split(cs@, pp + x.len() + e.len(), seq!['<'], seq!['/']);
            lemma_occurs_split(cs@, pp + x.len(), e, seq!['<']);
            assert(c =~= "</"@);
            assert(seq!['>', '\n'] =~= ">\n"@);
        }
    }
    let e = expect(cs, p, " xml:space=\"preserve\">")?;
    let (t, f) = read_escaped(cs, e, '<', Ghost(lit))?;
    let g = expect(cs, f, "</")?;
    let h = expect_name(cs, g, name)?;
    let k = expect(cs, h, ">\n")?;
    proof {
        lemma_join(cs@, p as int, e as int, f as int);
        lemma_join(cs@, p as int, f as int, g as int);
        lemma_join(cs@, p as int, g as int, h as int);
        lemma_join(cs@, p as int, h as int, k as int);
        assert(cs@.subrange(f as int, g as int) == seq!['<', '/']);
        assert(cs@.subrange(h as int, k as int) == seq!['>', '\n']);
        assert(cs@.subrange(p as int, k as int) =~= literal_tail(t@, name@));
    }
    Some((t, k))
}

/// Where a code block's language `body` (one line) and the end of its `info`
/// attribute stand at `c`, an end of the attribute found inside the language
/// is not followed by the rest of a code block.
proof fn lemma_no_tail_inside(cs: Seq<char>, c: int, body: Seq<char>, q: int, t: Seq<char>, k: int)
    requires
        occurs_at(cs, c, body + info_end()),
        one_line(body),
        c <= q < c + body.len(),
        occurs_at(cs, q, info_end()),
        q + 1 <= k <= cs.len(),
    ensures
        cs.subrange(q + 1, k) != literal_tail(t, "code_block"@),
{
    if cs.subrange(q + 1, k) == literal_tail(t, "code_block"@) {
        lemma_no_tail_inside_from(cs, c, body, q, t, k);
        lemma_occurs_char(cs, q, info_end(), 0);
    }
}

proof fn lemma_no_tail_inside_from(cs: Seq<char>, c: int, body: Seq<char>, q: int, t: Seq<char>, k: int)
    requires
        occurs_at(cs, c, body + info_end()),
        one_line(body),
        c <= q < c + body.len(),
        occurs_at(cs, q, info_end()),
        q + 1 <= k <= cs.len(),
        cs.subrange(q + 1, k) == literal_tail(t, "code_block"@),
    ensures
        cs[q] != '"',
{
    reveal_strlit(" xml:space=\"preserve\">");
    reveal_strlit("code_block");
    let x = info_end();
    let qs = c + body.len();
    lemma_occurs_split(cs, c, body, x);
    lemma_info_end_apart(cs, q, qs);
    let tail = literal_tail(t, "code_block"@);
    let e = escape(t);
    let s = q + 23;
    let f = s + e.len();
    assert(" xml:space=\"preserve\">"@.len() == 22);
    assert("code_block"@.len() == 10);
    assert(tail.len() == 22 + e.len() + 14);
    assert(tail[22 + e.len() as int + 13] == '\n');
    assert(cs.subrange(q + 1, k)[22 + e.len() as int + 13] == '\n');
    assert(cs[f + 13] == '\n');
    lemma_escape_no_quote(t);
    lemma_occurs_char(cs, qs, x, 0);
    if f > qs {
        assert(cs.subrange(q + 1, k)[22 + (qs - s)] == e[qs - s]);
        assert(cs[qs] == e[qs - s]);
    }
    if f + 13 < qs {
        lemma_occurs_char(cs, c, body, f + 13 - c);
    } else {
        lemma_occurs_char(cs, qs, x, f + 13 - qs);
    }
}

/// The language a code block's opening tag at `i` gives, when its `info`
/// attribute is taken to end at `q`: `None` where no printed language ends
/// there.
fn info_at(cs: &Vec<char>, i: usize, q: usize) -> (r: Option<Vec<char>>)
    requires
        i + 7 <= q < cs@.len(),
        occurs_at(cs@, i as int, " info=\""@),
        cs@[q as int] == '"',
    ensures
        r matches Some(info) ==> cs@.subrange(i as int, q + 1) == code_attrs(info@) && one_line(info@),
        ({
            let v = cs@.subrange(i + 7, q as int);
            v == math_info() || (v.len() > 0 && v != "math"@ && one_line(v))
        }) ==> r is Some,
{
    let ghost v0 = cs@.subrange(i + 7, q as int);
    proof {
        reveal_strlit(" info=\"");
        reveal_strlit("math\" math_style=\"display");
        reveal_strlit("math");
        reveal_strlit("info");
        reveal_strlit("math_style");
        reveal_strlit("display");
        reveal_strlit("=\"");
        assert("math\" math_style=\"display"@ =~= math_info());
        assert(attr("info"@, "math"@) + attr("math_style"@, "display"@) =~= " info=\""@ + math_info() + seq!['"']);
        assert(cs@.subrange(i as int, i + 7) == " info=\""@);
        lemma_join(cs@, i as int, i + 7, q as int);
        assert(cs@.subrange(q as int, q + 1) =~= seq!['"']);
        lemma_join(cs@, i as int, q as int, q + 1);
    }
    let mut v: Vec<char> = Vec::new();
    let mut t = i + 7;
    let mut lines = false;
    while t < q
        invariant
            i + 7 <= t <= q < cs@.len(),
            v@ == cs@.subrange(i + 7, t as int),
            !lines ==> one_line(v@),
            lines ==> !one_line(v@),
        decreases q - t,
    {
        if cs[t] == '\n' {
            lines = true;
        }
        v.push(cs[t]);
        t = t + 1;
        assert(v@ =~= cs@.subrange(i + 7, t as int));
        assert(v@[v@.len() - 1] == cs@[t - 1]);
    }
    assert(v@ =~= v0);
    let m = chars_of("math\" math_style=\"display");
    if v.len() == m.len() && looking_at(&v, 0, &m) {
        assert(v@.subrange(0, m@.len() as int) =~= v@);
        let math = chars_of("math");
        assert(cs@.subrange(i as int, q + 1) =~= code_attrs(math@));
        assert(one_line(math@));
        return Some(math);
    }
    proof {
        if v@ == math_info() {
            assert(v@.subrange(0, m@.len() as int) =~= v@);
        }
    }
    let h = chars_of("math");
    assert(v@.subrange(0, v@.len() as int) =~= v@);
    if lines || v.len() == 0 || (v.len() == h.len() && looking_at(&v, 0, &h)) {
        return None;
    }
    proof {
        if v@ == "math"@ {
            assert(v@.subrange(0, 4) =~= v@);
        }
        assert(cs@.subrange(i as int, q + 1) =~= attr("info"@, v@));
    }
    Some(v)
}

/// Whether elements named `name` hold escaped text.
pub open spec fn literal_name(name: Seq<char>) -> bool {
    name == "text"@ || name == "code"@ || name == "html_inline"@ || name == "html_block"@ || name == "code_block"@
}

/// How a literal node of kind `k`, named `name`, is printed after its name.
pub open spec fn literal_rest(k: NodeKind, name: Seq<char>) -> Seq<char> {
    kind_attrs(k) + " xml:space=\"preserve\">"@ + escape(kind_literal(k).unwrap()) + seq!['<', '/'] + name
        + seq!['>', '\n']
}

/// The rest of an element that holds escaped text, from just after its name
/// at `i`. A code block's language is printed unescaped, so it is read up to
/// each end of its `info` attribute in turn, until the rest of the element
/// follows. Where a printable literal node of kind `want` is printed there,
/// it is read to its end.
#[verifier::spinoff_prover]
#[verifier::rlimit(80)]
fn parse_literal(cs: &Vec<char>, i: usize, name: &Vec<char>, Ghost(want): Ghost<NodeKind>) -> (r: Option<(NodeKind, usize)>)
    requires
        i <= cs@.len(),
        literal_name(name@),
    ensures
        r matches Some((k, j)) ==> i <= j <= cs@.len() && kind_name(k) == name@ && kind_literal(k) is Some
            && cs@.subrange(i as int, j as int) == literal_rest(k, name@) && kind_ok(k),
        kind_ok(want) && kind_literal(want) is Some && kind_name(want) == name@
            && occurs_at(cs@, i as int, literal_rest(want, name@))
            ==> (r matches Some((_, j)) && j == i + literal_rest(want, name@).len()),
{
    let ghost ok = kind_ok(want) && kind_literal(want) is Some && kind_name(want) == name@
        && occurs_at(cs@, i as int, literal_rest(want, name@));
    let ghost wa = kind_attrs(want);
    let ghost wl = if ok { kind_literal(want).unwrap() } else { Seq::<char>::empty() };
    proof {
        reveal_strlit("text");
        reveal_strlit("code");
        reveal_strlit("html_inline");
        reveal_strlit("html_block");
        reveal_strlit("code_block");
        if ok {
            lemma_kind_named(want);
            assert(literal_rest(want, name@) =~= wa + literal_tail(wl, name@));
            lemma_occurs_split(cs@, i as int, wa, literal_tail(wl, name@));
            if !(want is CodeBlock) {
                assert(wa =~= Seq::<char>::empty());
            }
        }
    }
    let is_code_block = is_name(name, "code_block");
    if !is_code_block {
        let (lit, k) = read_tail(cs, i, name, Ghost(wl))?;
        let text = string_of(lit.as_slice());
        let kind = if is_name(name, "text") {
            NodeKind::Text(text)
        } else if is_name(name, "code") {
            NodeKind::Code(text)
        } else if is_name(name, "html_inline") {
            NodeKind::HtmlInline(text)
        } else {
            NodeKind::HtmlBlock(text)
        };
        assert(kind_attrs(kind) =~= Seq::<char>::empty());
        assert(cs@.subrange(i as int, k as int) =~= literal_rest(kind, name@));
        return Some((kind, k));
    }
    let open = chars_of(" info=\"");
    let ghost open_s = " info=\""@;
    proof {
        reveal_strlit(" info=\"");
        reveal_strlit(" xml:space=\"preserve\">");
        reveal_strlit("\" xml:space=\"preserve\">");
        reveal_strlit("math");
        reveal_strlit("info");
        reveal_strlit("math_style");
        reveal_strlit("display");
        reveal_strlit("=\"");
        assert("\" xml:space=\"preserve\">"@ =~= info_end());
        assert(info_end() =~= seq!['"'] + " xml:space=\"preserve\">"@);
        assert(open_s.len() == 7);
    }
    let found = looking_at(cs, i, &open);
    if !found {
        proof {
            if ok && want->info@.len() > 0 {
                lemma_occurs_split(cs@, i as int, attr("info"@, want->info@), wa.subrange(attr("info"@, want->info@).len() as int, wa.len() as int));
                assert(attr("info"@, want->info@).subrange(0, 7) =~= open_s);
                lemma_occurs_split(cs@, i as int, open_s, attr("info"@, want->info@).subrange(7, attr("info"@, want->info@).len() as int));
                assert(attr("info"@, want->info@) =~= open_s + attr("info"@, want->info@).subrange(7, attr("info"@, want->info@).len() as int));
                assert(wa =~= attr("info"@, want->info@) + wa.subrange(attr("info"@, want->info@).len() as int, wa.len() as int));
            }
            if ok && want->info@.len() == 0 {
                assert(wa =~= Seq::<char>::empty());
            }
        }
        let (lit, k) = read_tail(cs, i, name, Ghost(wl))?;
        let kind = NodeKind::CodeBlock { info: String::new(), literal: string_of(lit.as_slice()) };
        assert(kind_attrs(kind) =~= Seq::<char>::empty());
        assert(cs@.subrange(i as int, k as int) =~= literal_rest(kind, name@));
        assert(one_line(Seq::<char>::empty()));
        return Some((kind, k));
    }
    let n = cs.len();
    assert(i + 7 <= n);
    let c = i + 7;
    let end = chars_of("\" xml:space=\"preserve\">");
    let ghost body = if ok { if want->info@ == "math"@ { math_info() } else { want->info@ } } else { Seq::<char>::empty() };
    let ghost qs = c + body.len();
    proof {
        if ok {
            if want->info@.len() == 0 {
                assert(wa =~= Seq::<char>::empty());
                lemma_occurs_char(cs@, i as int, literal_tail(wl, name@), 1);
                lemma_occurs_char(cs@, i as int, open_s, 1);
                assert(false);
            }
            if want->info@ == "math"@ {
                assert(attr("info"@, "math"@) + attr("math_style"@, "display"@) =~= open_s + math_info() + seq!['"']);
            }
            assert(wa =~= open_s + body + seq!['"']);
            assert(wa + literal_tail(wl, name@) =~= open_s + (body + info_end()) + (literal_tail(wl, name@).subrange(22, literal_tail(wl, name@).len() as int)));
            lemma_occurs_split(cs@, i as int, open_s + (body + info_end()), literal_tail(wl, name@).subrange(22, literal_tail(wl, name@).len() as int));
            lemma_occurs_split(cs@, i as int, open_s, body + info_end());
            lemma_occurs_split(cs@, c as int, body, info_end());
            lemma_occurs_split(cs@, i as int, wa, literal_tail(wl, name@));
            assert(one_line(body));
        }
    }
    let mut from = c;
    loop
        invariant
            c == i + 7,
            n == cs@.len(),
            c <= from <= cs@.len(),
            ok == (kind_ok(want) && kind_literal(want) is Some && kind_name(want) == name@
                && occurs_at(cs@, i as int, literal_rest(want, name@))),
            wl == if ok { kind_literal(want).unwrap() } else { Seq::<char>::empty() },
            occurs_at(cs@, i as int, " info=\""@),
            end@ == info_end(),
            name@ == "code_block"@,
            ok ==> {
                &&& from <= qs
                &&& occurs_at(cs@, c as int, body + info_end())
                &&& occurs_at(cs@, qs, info_end())
                &&& one_line(body)
                &&& (body == math_info() || (body.len() > 0 && body != "math"@))
                &&& cs@.subrange(c as int, qs) == body
                &&& occurs_at(cs@, qs + 1, literal_tail(wl, name@))
                &&& i + literal_rest(want, name@).len() == qs + 1 + literal_tail(wl, name@).len()
            },
        decreases cs@.len() - from,
    {
        let q = match find_first(cs, from, &end) {
            Some(q) => q,
            None => {
                proof {
                    if ok {
                        assert(occurs_at(cs@, qs, end@));
                    }
                }
                return None;
            },
        };
        proof {
            if ok {
                assert(q <= qs);
            }
        }
        assert(end@.len() == 23);
        assert(occurs_at(cs@, q as int, end@));
        assert(q + 23 <= n);
        proof {
            lemma_occurs_char(cs@, q as int, info_end(), 0);
        }
        if let Some(info) = info_at(cs, i, q) {
            if let Some((lit, k)) = read_tail(cs, q + 1, name, Ghost(if ok && q == qs { wl } else { Seq::<char>::empty() })) {
                let kind = NodeKind::CodeBlock { info: string_of(info.as_slice()), literal: string_of(lit.as_slice()) };
                proof {
                    if ok && q < qs {
                        lemma_no_tail_inside(cs@, c as int, body, q as int, lit@, k as int);
                    }
                    lemma_join(cs@, i as int, q + 1, k as int);
                    assert(cs@.subrange(i as int, k as int) =~= literal_rest(kind, name@));
                }
                return Some((kind, k));
            }
        }
        proof {
            if ok {
                if q == qs {
                    assert(cs@.subrange(i + 7, q as int) == body);
                }
                assert(q < qs);
            }
        }
        from = q + 1;
    }
}

/// The closing tag of an element named `name` at depth `d`.
pub open spec fn closing(d: nat, name: Seq<char>) -> Seq<char> {
    indent(d) + seq!['<', '/'] + name + seq!['>', '\n']
}

/// Printing a run of nodes splits where the run does.
pub proof fn lemma_xml_nodes_concat(a: Seq<Node>, b: Seq<Node>, d: nat)
    ensures
        xml_nodes(a + b, d) == xml_nodes(a, d) + xml_nodes(b, d),
    decreases b.len(),
{
    if b.len() == 0 {
        assert(a + b =~= a);
        assert(xml_nodes(a, d) + xml_nodes(b, d) =~= xml_nodes(a, d));
    } else {
        lemma_xml_nodes_concat(a, b.drop_last(), d);
        assert((a + b).drop_last() =~= a + b.drop_last());
        assert((a + b).last() == b.last());
        assert(xml_nodes(a, d) + xml_nodes(b.drop_last(), d) + xml_node(b.last(), d)
            =~= xml_nodes(a, d) + (xml_nodes(b.drop_last(), d) + xml_node(b.last(), d)));
    }
}

/// How the printing of a run of nodes splits around its node at `t`.
pub proof fn lemma_xml_nodes_at(s: Seq<Node>, t: int, d: nat)
    requires
        0 <= t < s.len(),
    ensures
        xml_nodes(s, d) == xml_nodes(s.take(t), d) + (xml_node(s[t], d) + xml_nodes(s.skip(t + 1), d)),
        xml_nodes(s.take(t + 1), d) == xml_nodes(s.take(t), d) + xml_node(s[t], d),
{
    assert(s =~= s.take(t) + s.skip(t));
    lemma_xml_nodes_concat(s.take(t), s.skip(t), d);
    assert(s.skip(t) =~= seq![s[t]] + s.skip(t + 1));
    lemma_xml_nodes_concat(seq![s[t]], s.skip(t + 1), d);
    assert(seq![s[t]].drop_last() =~= Seq::<Node>::empty());
    assert(seq![s[t]].last() == s[t]);
    assert(xml_nodes(Seq::<Node>::empty(), d) =~= Seq::<char>::empty());
    assert(xml_nodes(seq![s[t]], d) =~= xml_node(s[t], d));
    assert(s.take(t + 1).drop_last() =~= s.take(t));
}

/// A kind's attributes, when it has any, begin with a space.
#[verifier::spinoff_prover]
pub proof fn lemma_attrs_lead(k: NodeKind)
    ensures
        kind_attrs(k).len() > 0 ==> kind_attrs(k)[0] == ' ',
{
    match k {
        NodeKind::List(l) => {
            let ty = if l.ordered {
                attr("type"@, "ordered"@) + attr("start"@, dec(l.start as nat))
                    + attr("delim"@, if l.paren { "paren"@ } else { "period"@ })
            } else {
                attr("type"@, "bullet"@)
            };
            assert(ty[0] == ' ');
        },
        NodeKind::Alert { kind, title, multiline } => {
            assert(attr("type"@, alert_type_name(kind))[0] == ' ');
        },
        NodeKind::CodeBlock { info, .. } => {
            if info@.len() > 0 {
                assert(attr("info"@, info@)[0] == ' ');
            }
        },
        _ => {},
    }
}

/// A printable kind's name is plain, and names a literal kind exactly when
/// the kind is one.
pub proof fn lemma_kind_ok_name(k: NodeKind)
    requires
        kind_ok(k),
    ensures
        plain_name(kind_name(k)),
        literal_name(kind_name(k)) <==> kind_literal(k) is Some,
{
    if !(k is Element) {
        lemma_kind_named(k);
    }
}

/// The pieces of a printable node's printing that stands at `i`, each where
/// the reader looks for it.
#[verifier::spinoff_prover]
#[verifier::rlimit(60)]
pub proof fn lemma_node_parts(cs: Seq<char>, i: int, n: Node, d: nat)
    requires
        d <= 40,
        printable(n),
        occurs_at(cs, i, xml_node(n, d)),
    ensures
        ({
            let name = kind_name(n.kind);
            let a = kind_attrs(n.kind);
            let c = i + d + 1 + name.len();
            &&& occurs_at(cs, i, indent(d))
            &&& indent(d).len() == d
            &&& occurs_at(cs, i + d, "<"@)
            &&& "<"@.len() == 1
            &&& occurs_at(cs, i + d + 1, name)
            &&& plain_name(name)
            &&& c < cs.len() && ends_name(cs[c])
            &&& (literal_name(name) <==> kind_literal(n.kind) is Some)
            &&& (kind_literal(n.kind) is Some ==> occurs_at(cs, c, literal_rest(n.kind, name))
                && xml_node(n, d).len() == c - i + literal_rest(n.kind, name).len())
            &&& (kind_literal(n.kind) is None ==> occurs_at(cs, c, a) && tag_end(cs, c + a.len()))
            &&& (kind_literal(n.kind) is None && n.children@.len() == 0 ==> occurs_at(cs, c + a.len(), " />\n"@)
                && xml_node(n, d).len() == c - i + a.len() + 4 && " />\n"@.len() == 4)
            &&& (kind_literal(n.kind) is None && n.children@.len() > 0 ==> occurs_at(cs, c + a.len(), ">\n"@)
                && !occurs_at(cs, c + a.len(), " />\n"@) && ">\n"@.len() == 2
                && occurs_at(cs, c + a.len() + 2, xml_nodes(n.children@, child_depth(d)) + closing(d, name))
                && xml_node(n, d).len() == c - i + a.len() + 2 + xml_nodes(n.children@, child_depth(d)).len()
                    + closing(d, name).len())
        }),
{
    reveal_strlit("<");
    reveal_strlit(" />\n");
    reveal_strlit(">\n");
    reveal_strlit(" xml:space=\"preserve\">");
    lemma_kind_ok_name(n.kind);
    lemma_attrs_lead(n.kind);
    let name = kind_name(n.kind);
    let a = kind_attrs(n.kind);
    let ind = indent(d);
    let c = i + d + 1 + name.len();
    assert(ind.len() == d);
    assert("<"@ =~= seq!['<']);
    let pre = ind + seq!['<'] + name;
    let rest: Seq<char> = if kind_literal(n.kind) is Some {
        literal_rest(n.kind, name)
    } else if n.children@.len() == 0 {
        a + " />\n"@
    } else {
        a + (">\n"@ + (xml_nodes(n.children@, child_depth(d)) + closing(d, name)))
    };
    assert(xml_node(n, d) =~= pre + rest);
    lemma_occurs_split(cs, i, pre, rest);
    lemma_occurs_split(cs, i, ind + seq!['<'], name);
    lemma_occurs_split(cs, i, ind, seq!['<']);
    assert(rest.len() > 0);
    lemma_occurs_char(cs, c, rest, 0);
    if kind_literal(n.kind) is Some {
        assert(literal_rest(n.kind, name) =~= a + (" xml:space=\"preserve\">"@ + (escape(kind_literal(n.kind).unwrap())
            + seq!['<', '/'] + name + seq!['>', '\n'])));
    } else if n.children@.len() == 0 {
        lemma_occurs_split(cs, c, a, " />\n"@);
    } else {
        lemma_occurs_split(cs, c, a, ">\n"@ + (xml_nodes(n.children@, child_depth(d)) + closing(d, name)));
        lemma_occurs_split(cs, c + a.len(), ">\n"@, xml_nodes(n.children@, child_depth(d)) + closing(d, name));
        lemma_occurs_differ(cs, c + a.len(), ">\n"@, " />\n"@, 0);
    }
}

/// A child's printing, one level deeper, is no closing tag at its parent's depth.
pub proof fn lemma_child_not_closing(cs: Seq<char>, j: int, child: Node, d: nat, name: Seq<char>)
    requires
        d <= 40,
        kind_ok(child.kind),
        occurs_at(cs, j, xml_node(child, child_depth(d))),
    ensures
        !occurs_at(cs, j, closing(d, name)),
{
    lemma_kind_ok_name(child.kind);
    let cd = child_depth(d);
    let cn = kind_name(child.kind);
    let x = xml_node(child, cd);
    let w = closing(d, name);
    let pre = indent(cd) + seq!['<'] + cn;
    assert(indent(cd).len() == cd);
    assert(indent(d).len() == d);
    assert(x.subrange(0, pre.len() as int) =~= pre);
    if d < 40 {
        assert(x.subrange(0, pre.len() as int)[d as int] == ' ');
        assert(w[d as int] == '<');
        lemma_occurs_differ(cs, j, x, w, d as int);
    } else {
        assert(cn[0] != '/');
        assert(x.subrange(0, pre.len() as int)[d + 1int] == cn[0]);
        assert(w[d + 1int] == '/');
        lemma_occurs_differ(cs, j, x, w, d + 1int);
    }
}

/// Where the reader stands among the printed children of a node: before the
/// next child, which is no closing tag, or, after the last, at the closing tag.
pub proof fn lemma_children_step(cs: Seq<char>, f: int, j: int, wc: Seq<Node>, t: int, d: nat, wn: Seq<char>)
    requires
        d <= 40,
        0 <= t <= wc.len(),
        forall|k: int| 0 <= k < wc.len() ==> printable(#[trigger] wc[k]),
        j == f + xml_nodes(wc.take(t), child_depth(d)).len(),
        occurs_at(cs, f, xml_nodes(wc, child_depth(d)) + closing(d, wn)),
    ensures
        t < wc.len() ==> occurs_at(cs, j, xml_node(wc[t], child_depth(d))) && !occurs_at(cs, j, closing(d, wn))
            && j + xml_node(wc[t], child_depth(d)).len() == f + xml_nodes(wc.take(t + 1), child_depth(d)).len(),
        t == wc.len() ==> occurs_at(cs, j, closing(d, wn)) && j == f + xml_nodes(wc, child_depth(d)).len(),
{
    let cd = child_depth(d);
    lemma_occurs_split(cs, f, xml_nodes(wc, cd), closing(d, wn));
    if t < wc.len() {
        lemma_xml_nodes_at(wc, t, cd);
        lemma_occurs_split(cs, f, xml_nodes(wc.take(t), cd), xml_node(wc[t], cd) + xml_nodes(wc.skip(t + 1), cd));
        lemma_occurs_split(cs, j, xml_node(wc[t], cd), xml_nodes(wc.skip(t + 1), cd));
        assert(printable(wc[t]));
        lemma_child_not_closing(cs, j, wc[t], d, wn);
    } else {
        assert(wc.take(t) =~= wc);
    }
}

/// The node printed at `i`, at depth `d`, and where its printing ends. Where
/// a printable node `want` is printed there, its printing is read to its end.
#[verifier::spinoff_prover]
#[verifier::rlimit(80)]
fn parse_node(cs: &Vec<char>, i: usize, d: usize, Ghost(want): Ghost<Node>) -> (r: Option<(Node, usize)>)
    requires
        d <= 40,
        i <= cs@.len(),
    ensures
        r matches Some((n, j)) ==> i < j <= cs@.len() && cs@.subrange(i as int, j as int) == xml_node(n, d as nat)
            && printable(n),
        printable(want) && occurs_at(cs@, i as int, xml_node(want, d as nat))
            ==> (r matches Some((_, j)) && j == i + xml_node(want, d as nat).len()),
    decreases cs@.len() - i,
{
    let ghost ok = printable(want) && occurs_at(cs@, i as int, xml_node(want, d as nat));
    let ghost wn = kind_name(want.kind);
    let ghost wa = kind_attrs(want.kind);
    proof {
        if ok {
            lemma_node_parts(cs@, i as int, want, d as nat);
        }
    }
    let a = expect_indent(cs, i, d)?;
    let b = expect(cs, a, "<")?;
    proof {
        if ok {
            lemma_occurs_char(cs@, b as int, wn, 0);
        }
    }
    let (name, c) = read_name(cs, b)?;
    proof {
        reveal_strlit("<");
        lemma_join(cs@, i as int, a as int, b as int);
        lemma_join(cs@, i as int, b as int, c as int);
        assert forall|m: int| 0 <= m < name@.len() implies {
            let ch = #[trigger] name@[m];
            ch != ' ' && ch != '/' && ch != '>'
        } by {
            assert(name@[m] == cs@[b + m]);
            assert(!ends_name(cs@[b + m]));
        }
        assert(plain_name(name@));
        if ok {
            let e = b + wn.len();
            if c < e {
                lemma_occurs_char(cs@, b as int, wn, c - b);
            }
            if c > e {
                assert(!ends_name(cs@[e]));
            }
            assert(c == e);
            assert(name@ =~= wn);
        }
    }
    if is_name(&name, "text") || is_name(&name, "code") || is_name(&name, "html_inline")
        || is_name(&name, "html_block") || is_name(&name, "code_block") {
        let (kind, k) = parse_literal(cs, c, &name, Ghost(want.kind))?;
        let n = Node { kind, children: Vec::new() };
        proof {
            lemma_join(cs@, i as int, c as int, k as int);
            assert(cs@.subrange(i as int, k as int) =~= xml_node(n, d as nat));
        }
        return Some((n, k));
    }
    assert(!literal_name(name@));
    let (kind, e) = parse_attrs(cs, c, &name, Ghost(want.kind))?;
    proof { lemma_join(cs@, i as int, c as int, e as int); }
    if let Some(f) = expect(cs, e, " />\n") {
        let n = Node { kind, children: Vec::new() };
        proof {
            reveal_strlit(" />\n");
            lemma_join(cs@, i as int, e as int, f as int);
            assert(cs@.subrange(i as int, f as int) =~= xml_node(n, d as nat));
        }
        return Some((n, f));
    }
    let f = expect(cs, e, ">\n")?;
    proof {
        reveal_strlit(">\n");
        lemma_join(cs@, i as int, e as int, f as int);
    }
    let cd: usize = if d + 2 > 40 { 40 } else { d + 2 };
    let mut children: Vec<Node> = Vec::new();
    let mut j = f;
    let ghost wc = want.children@;
    proof {
        if ok {
            assert(wc.take(0) =~= Seq::<Node>::empty());
            assert(forall|k: int| 0 <= k < wc.len() ==> printable(#[trigger] wc[k]));
        }
    }
    assert(cs@.subrange(f as int, f as int) =~= xml_nodes(children@, cd as nat));
    loop
        invariant
            i < f <= j <= cs@.len(),
            d <= 40,
            cd == child_depth(d as nat),
            cs@.subrange(f as int, j as int) == xml_nodes(children@, cd as nat),
            cs@.subrange(i as int, f as int)
                == indent(d as nat) + seq!['<'] + kind_name(kind) + kind_attrs(kind) + seq!['>', '\n'],
            kind_name(kind) == name@,
            kind_literal(kind) is None,
            kind_ok(kind),
            forall|k: int| 0 <= k < children@.len() ==> printable(#[trigger] children@[k]),
            wc == want.children@,
            ok == (printable(want) && occurs_at(cs@, i as int, xml_node(want, d as nat))),
            ok ==> {
                &&& forall|k: int| 0 <= k < wc.len() ==> printable(#[trigger] wc[k])
                &&& wn == name@
                &&& wc.len() > 0
                &&& children@.len() <= wc.len()
                &&& j == f + xml_nodes(wc.take(children@.len() as int), cd as nat).len()
                &&& occurs_at(cs@, f as int, xml_nodes(wc, cd as nat) + closing(d as nat, wn))
                &&& i + xml_node(want, d as nat).len() == f + xml_nodes(wc, cd as nat).len() + closing(d as nat, wn).len()
            },
        decreases cs@.len() - j,
    {
        let ghost t = children@.len() as int;
        proof {
            if ok {
                lemma_children_step(cs@, f as int, j as int, wc, t, d as nat, wn);
            }
        }
        if let Some(k) = closing_at(cs, j, d, &name) {
            proof {
                assert(occurs_at(cs@, j as int, closing(d as nat, name@)));
            }
            if children.len() == 0 {
                return None;
            }
            let n = Node { kind, children };
            proof {
                lemma_join(cs@, i as int, f as int, j as int);
                lemma_join(cs@, i as int, j as int, k as int);
                assert(cs@.subrange(i as int, k as int) =~= xml_node(n, d as nat));
            }
            return Some((n, k));
        }
        let ghost next = if ok { wc[t] } else { want };
        let (child, k) = parse_node(cs, j, cd, Ghost(next))?;
        let ghost c0 = children@;
        children.push(child);
        proof {
            assert(children@.drop_last() =~= c0);
            lemma_join(cs@, f as int, j as int, k as int);
        }
        j = k;
    }
}

/// Whether `xml` is how some printable tree is printed.
pub open spec fn readable_xml(xml: Seq<char>) -> bool {
    exists|n: Node| printable(n) && #[trigger] xml_document(n) == xml
}

/// The document tree whose XML printing is `xml`, if `xml` is such a printing.
pub fn parse_xml_document(xml: &Vec<char>) -> (r: Option<Node>)
    ensures
        r is Some <==> readable_xml(xml@),
        r matches Some(n) ==> xml_document(n) == xml@ && printable(n),
{
    let ghost want = choose|n: Node| printable(n) && xml_document(n) == xml@;
    proof {
        if exists|n: Node| printable(n) && xml_document(n) == xml@ {
            assert(xml@.subrange(0, xml@.len() as int) =~= xml@);
            assert(occurs_at(xml@, 0, xml_document(want)));
            lemma_occurs_split(xml@, 0, xml_prolog(), xml_node(want, 0));
        }
    }
    let a = expect(xml, 0, "<?xml version=\"1.0\" encoding=\"UTF-8\"?>\n<!DOCTYPE document SYSTEM \"CommonMark.dtd\">\n")?;
    let (n, j) = parse_node(xml, a, 0, Ghost(want))?;
    if j != xml.len() {
        return None;
    }
    proof {
        lemma_join(xml@, 0, a as int, j as int);
        assert(xml@.subrange(0, j as int) =~= xml@);
    }
    Some(n)
}


// --- the parser ----------------------------------------------------------------------

/// What comrak prints as CommonMark XML for the Markdown `md`, parsed with GFM
/// tables, strikethrough, task lists, autolinks, footnotes, alerts and `---`
/// front matter turned on.
pub uninterp spec fn comrak_xml(md: Seq<char>) -> Seq<char>;

/// The front matter comrak finds at the top of `md` with the same options,
/// delimiter lines included; `None` if there is none.
pub uninterp spec fn comrak_front_matter(md: Seq<char>) -> Option<Seq<char>>;

/// A string's view, inside an `Option`.
pub open spec fn text_opt(o: Option<String>) -> Option<Seq<char>> {
    match o {
        Some(s) => Some(s@),
        None => None,
    }
}

/// `comrak::markdown_to_commonmark_xml` with the options above. Parsing never
/// fails, and writing into a `String` neither; the result depends on `md` alone.
#[verifier::external_body]
fn markdown_to_xml(md: &str) -> (r: String)
    ensures
        r@ == comrak_xml(md@),
{
    let mut o = comrak::Options::default();
    o.extension.table = true;
    o.extension.strikethrough = true;
    o.extension.tasklist = true;
    o.extension.autolink = true;
    o.extension.footnotes = true;
    o.extension.alerts = true;
    o.extension.front_matter_delimiter = Some("---".to_string());
    comrak::markdown_to_commonmark_xml(md, &o)
}

/// `comrak::parse_document` with the options above, read for the front matter
/// node, which comrak puts first in the document and which its XML printer
/// writes without its text. The result depends on `md` alone.
#[verifier::external_body]
fn markdown_front_matter(md: &str) -> (r: Option<String>)
    ensures
        text_opt(r) == comrak_front_matter(md@),
{
    let mut o = comrak::Options::default();
    o.extension.table = true;
    o.extension.strikethrough = true;
    o.extension.tasklist = true;
    o.extension.autolink = true;
    o.extension.footnotes = true;
    o.extension.alerts = true;
    o.extension.front_matter_delimiter = Some("---".to_string());
    let arena = comrak::Arena::new();
    let first = comrak::parse_document(&arena, md, &o).first_child()?;
    let r = match &first.data().value {
        comrak::nodes::NodeValue::FrontMatter(f) => Some(f.clone()),
        _ => None,
    };
    r
}

/// Parses `md` into the library's tree, with its front matter's text (empty
/// if it has none). `None` only if comrak's XML is not a printing of any
/// printable tree.
pub fn parse_markdown(md: &str) -> (r: Option<(Node, String)>)
    ensures
        r is Some <==> readable_xml(comrak_xml(md@)),
        r matches Some((n, fm)) ==> {
            &&& xml_document(n) == comrak_xml(md@)
            &&& printable(n)
            &&& fm@ == match comrak_front_matter(md@) {
                Some(f) => f,
                None => Seq::<char>::empty(),
            }
        },
{
    let xml = markdown_to_xml(md);
    let cs = chars_of(xml.as_str());
    let n = parse_xml_document(&cs)?;
    let fm = match markdown_front_matter(md) {
        Some(f) => f,
        None => String::new(),
    };
    Some((n, fm))
}

} // verus!
