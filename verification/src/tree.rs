//! The document tree: elements with a name and kind, attributes, literal text and
//! children, and what each of them is as a mathematical value.

use vstd::prelude::*;
use crate::text::{chars_are, strings_equal};

verus! {

/// One `key="value"` attribute of an element.
#[derive(Clone, Debug)]
pub struct Attr {
    pub key: String,
    pub value: String,
}

/// The kinds of node the renderer tells apart; every other kind is `Other`.
#[derive(Clone, Copy, Debug, PartialEq, Eq, Structural)]
pub enum Tag {
    Document,
    Paragraph,
    Heading,
    CodeBlock,
    List,
    Item,
    TaskItem,
    Alert,
    BlockQuote,
    ThematicBreak,
    Table,
    TableRow,
    TableCell,
    FrontMatter,
    HtmlBlock,
    Text,
    Code,
    Emph,
    Strong,
    Strikethrough,
    Link,
    Image,
    SoftBreak,
    LineBreak,
    Other,
}

/// The kind of node that an element name stands for.
pub open spec fn tag_of(name: Seq<char>) -> Tag {
    if name == "document"@ { Tag::Document }
    else if name == "paragraph"@ { Tag::Paragraph }
    else if name == "heading"@ { Tag::Heading }
    else if name == "code_block"@ { Tag::CodeBlock }
    else if name == "list"@ { Tag::List }
    else if name == "item"@ { Tag::Item }
    else if name == "taskitem"@ { Tag::TaskItem }
    else if name == "alert"@ { Tag::Alert }
    else if name == "block_quote"@ { Tag::BlockQuote }
    else if name == "thematic_break"@ { Tag::ThematicBreak }
    else if name == "table"@ { Tag::Table }
    else if name == "table_row"@ { Tag::TableRow }
    else if name == "table_cell"@ { Tag::TableCell }
    else if name == "frontmatter"@ { Tag::FrontMatter }
    else if name == "html_block"@ { Tag::HtmlBlock }
    else if name == "text"@ { Tag::Text }
    else if name == "code"@ { Tag::Code }
    else if name == "emph"@ { Tag::Emph }
    else if name == "strong"@ { Tag::Strong }
    else if name == "strikethrough"@ { Tag::Strikethrough }
    else if name == "link"@ { Tag::Link }
    else if name == "image"@ { Tag::Image }
    else if name == "softbreak"@ { Tag::SoftBreak }
    else if name == "linebreak"@ { Tag::LineBreak }
    else { Tag::Other }
}

/// A node of the document tree.
#[derive(Debug)]
pub struct Elem {
    pub name: String,
    pub tag: Tag,
    pub attrs: Vec<Attr>,
    /// The text of a literal element (text, code, code block); empty otherwise.
    pub literal: String,
    pub children: Vec<Elem>,
}

/// What an element is: its name, its kind, its attributes in order, its literal text and
/// its children.
pub struct ElemV {
    pub name: Seq<char>,
    pub tag: Tag,
    pub attrs: Seq<(Seq<char>, Seq<char>)>,
    pub literal: Seq<char>,
    pub children: Seq<ElemV>,
}

pub open spec fn attrs_view(a: Seq<Attr>) -> Seq<(Seq<char>, Seq<char>)> {
    a.map_values(|x: Attr| (x.key@, x.value@))
}

pub open spec fn elem_view(e: Elem) -> ElemV
    decreases e,
{
    ElemV {
        name: e.name@,
        tag: e.tag,
        attrs: attrs_view(e.attrs@),
        literal: e.literal@,
        children: elems_view(e.children@),
    }
}

pub open spec fn elems_view(s: Seq<Elem>) -> Seq<ElemV>
    decreases s,
{
    if s.len() == 0 {
        Seq::empty()
    } else {
        elems_view(s.drop_last()).push(elem_view(s.last()))
    }
}

impl View for Elem {
    type V = ElemV;

    open spec fn view(&self) -> ElemV {
        elem_view(*self)
    }
}

pub proof fn lemma_elems_view(s: Seq<Elem>)
    ensures
        elems_view(s).len() == s.len(),
        forall|i: int| 0 <= i < s.len() ==> #[trigger] elems_view(s)[i] == elem_view(s[i]),
    decreases s.len(),
{
    if s.len() > 0 {
        lemma_elems_view(s.drop_last());
    }
}

pub proof fn lemma_elems_view_push(s: Seq<Elem>, e: Elem)
    ensures
        elems_view(s.push(e)) == elems_view(s).push(elem_view(e)),
{
    assert(s.push(e).drop_last() =~= s);
}

/// The value of the first attribute named `key`, if any.
pub open spec fn attr_of(attrs: Seq<(Seq<char>, Seq<char>)>, key: Seq<char>) -> Option<Seq<char>>
    decreases attrs.len(),
{
    if attrs.len() == 0 {
        None
    } else if attrs[0].0 == key {
        Some(attrs[0].1)
    } else {
        attr_of(attrs.drop_first(), key)
    }
}

/// The kind of node that the element name `name` stands for.
pub fn tag_from_name(name: &[char]) -> (t: Tag)
    ensures
        t == tag_of(name@),
{
    if chars_are(name, "document") { Tag::Document }
    else if chars_are(name, "paragraph") { Tag::Paragraph }
    else if chars_are(name, "heading") { Tag::Heading }
    else if chars_are(name, "code_block") { Tag::CodeBlock }
    else if chars_are(name, "list") { Tag::List }
    else if chars_are(name, "item") { Tag::Item }
    else if chars_are(name, "taskitem") { Tag::TaskItem }
    else if chars_are(name, "alert") { Tag::Alert }
    else if chars_are(name, "block_quote") { Tag::BlockQuote }
    else if chars_are(name, "thematic_break") { Tag::ThematicBreak }
    else if chars_are(name, "table") { Tag::Table }
    else if chars_are(name, "table_row") { Tag::TableRow }
    else if chars_are(name, "table_cell") { Tag::TableCell }
    else if chars_are(name, "frontmatter") { Tag::FrontMatter }
    else if chars_are(name, "html_block") { Tag::HtmlBlock }
    else if chars_are(name, "text") { Tag::Text }
    else if chars_are(name, "code") { Tag::Code }
    else if chars_are(name, "emph") { Tag::Emph }
    else if chars_are(name, "strong") { Tag::Strong }
    else if chars_are(name, "strikethrough") { Tag::Strikethrough }
    else if chars_are(name, "link") { Tag::Link }
    else if chars_are(name, "image") { Tag::Image }
    else if chars_are(name, "softbreak") { Tag::SoftBreak }
    else if chars_are(name, "linebreak") { Tag::LineBreak }
    else { Tag::Other }
}

/// The value of the first attribute named `key`, if any.
pub fn attr_value(attrs: &Vec<Attr>, key: &str) -> (r: Option<String>)
    ensures
        match r {
            Some(v) => attr_of(attrs_view(attrs@), key@) == Some(v@),
            None => attr_of(attrs_view(attrs@), key@) is None,
        },
{
    let mut i: usize = 0;
    assert(attrs_view(attrs@).skip(0) =~= attrs_view(attrs@));
    while i < attrs.len()
        invariant
            i <= attrs@.len(),
            attr_of(attrs_view(attrs@), key@) == attr_of(attrs_view(attrs@).skip(i as int), key@),
        decreases attrs@.len() - i,
    {
        let ghost rest = attrs_view(attrs@).skip(i as int);
        assert(rest[0] == (attrs@[i as int].key@, attrs@[i as int].value@));
        assert(rest.drop_first() =~= attrs_view(attrs@).skip(i + 1));
        if strings_equal(attrs[i].key.as_str(), key) {
            return Some(attrs[i].value.clone());
        }
        i += 1;
    }
    assert(attrs_view(attrs@).skip(i as int).len() == 0);
    None
}

} // verus!
