//! Parsing Markdown with comrak, read back through comrak's XML form.

use vstd::prelude::*;
use crate::xml::is_xml_form;

verus! {

/// The Markdown extensions the parser is asked for.
#[derive(Clone, Copy, Debug, PartialEq, Eq, Structural)]
pub struct ParseOptions {
    pub strikethrough: bool,
    pub table: bool,
    pub autolink: bool,
    pub tasklist: bool,
    pub alerts: bool,
}

/// The GitHub Flavored Markdown extensions: strikethrough, tables, autolinks,
/// task lists and alerts.
pub open spec fn gfm_options() -> ParseOptions {
    ParseOptions { strikethrough: true, table: true, autolink: true, tasklist: true, alerts: true }
}

/// The GitHub Flavored Markdown extensions: strikethrough, tables, autolinks,
/// task lists and alerts.
pub fn comrak_options() -> (o: ParseOptions)
    ensures
        o == gfm_options(),
{
    ParseOptions { strikethrough: true, table: true, autolink: true, tasklist: true, alerts: true }
}

/// The XML form (CommonMark DTD) of the document that comrak parses from
/// `source` with `options`.
pub uninterp spec fn comrak_xml(source: Seq<char>, options: ParseOptions) -> Seq<char>;

/// `comrak::parse_document` followed by `comrak::format_xml`, with the given
/// extensions enabled and every other option at its default. The result is
/// the name `comrak_xml` of the source and the options (the parse is
/// deterministic and reads nothing else), and it is the XML form of some
/// document tree as `print_document` writes it: the formatter writes the two
/// header lines, then each node indented by two spaces a level (at most 40)
/// as `<name`, its attributes (values escaped, but for a code block's info
/// string, which is one line, written as it stands and followed by
/// `xml:space`, with `math_style` before it for the info string `math`), then
/// ` />` for a node without children, escaped text and the closing tag for
/// a text-holding node, or `>`, its children and the indented closing tag.
#[verifier::external_body]
pub(crate) fn markdown_to_xml(source: &str, options: &ParseOptions) -> (xml: String)
    ensures
        xml@ == comrak_xml(source@, *options),
        is_xml_form(xml@),
{
    let mut opts = comrak::Options::default();
    opts.extension.strikethrough = options.strikethrough;
    opts.extension.table = options.table;
    opts.extension.autolink = options.autolink;
    opts.extension.tasklist = options.tasklist;
    opts.extension.alerts = options.alerts;
    let arena = comrak::Arena::new();
    let root = comrak::parse_document(&arena, source, &opts);
    let mut xml = String::new();
    comrak::format_xml(root, &opts, &mut xml).unwrap();
    xml
}

} // verus!
