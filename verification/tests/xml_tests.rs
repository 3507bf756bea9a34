use dress::highlight::{Fragment, Highlighter, highlight_code, lines_of_fragments};
use dress::markdown::comrak_options;
use dress::render::render_xml;
use dress::style::Color;
use dress::tree::{Tag, attr_value};
use dress::xml::decode_document;

const HEADER: &str = "<?xml version=\"1.0\" encoding=\"UTF-8\"?>\n<!DOCTYPE document SYSTEM \"CommonMark.dtd\">\n";

#[test]
fn decodes_a_small_document() {
    let xml = format!(
        "{}<document xmlns=\"http://commonmark.org/xml/1.0\">\n  <heading level=\"2\">\n    <text xml:space=\"preserve\">a &lt;b&gt; &amp; &quot;c&quot;</text>\n  </heading>\n  <thematic_break />\n</document>\n",
        HEADER
    );
    let doc = decode_document(&xml).expect("well-formed");
    assert_eq!(doc.tag, Tag::Document);
    assert_eq!(doc.children.len(), 2);
    let h = &doc.children[0];
    assert_eq!(h.tag, Tag::Heading);
    assert_eq!(attr_value(&h.attrs, "level"), Some("2".to_string()));
    assert_eq!(h.children[0].tag, Tag::Text);
    assert_eq!(h.children[0].literal, "a <b> & \"c\"");
    assert_eq!(doc.children[1].tag, Tag::ThematicBreak);
    assert!(doc.children[1].children.is_empty());
}

#[test]
fn empty_document() {
    let xml = format!("{}<document xmlns=\"http://commonmark.org/xml/1.0\" />\n", HEADER);
    let doc = decode_document(&xml).expect("well-formed");
    assert!(doc.children.is_empty());
}

#[test]
fn rejects_what_is_not_the_xml_form() {
    assert!(decode_document("").is_none());
    assert!(decode_document("<document />\n").is_none());
    let unclosed = format!("{}<document>\n  <paragraph>\n</document>\n", HEADER);
    assert!(decode_document(&unclosed).is_none());
    let trailing = format!("{}<document />\nextra", HEADER);
    assert!(decode_document(&trailing).is_none());
}

#[test]
fn unknown_elements_are_other() {
    let xml = format!("{}<document>\n  <footnote_definition label=\"x\" />\n</document>\n", HEADER);
    let doc = decode_document(&xml).expect("well-formed");
    assert_eq!(doc.children[0].tag, Tag::Other);
    assert_eq!(attr_value(&doc.children[0].attrs, "label"), Some("x".to_string()));
    assert_eq!(attr_value(&doc.children[0].attrs, "missing"), None);
}

#[test]
fn comrak_options_enable_the_extensions() {
    let o = comrak_options();
    assert!(o.strikethrough && o.table && o.autolink && o.tasklist && o.alerts);
}

#[test]
fn render_xml_reads_the_written_form() {
    let h = Highlighter::new();
    let xml = format!(
        "{}<document>\n  <heading level=\"2\">\n    <text xml:space=\"preserve\">a &amp; b</text>\n  </heading>\n  <thematic_break />\n</document>\n",
        HEADER
    );
    let lines = render_xml(&h, &xml);
    let texts: Vec<String> = lines.iter().map(|l| l.spans.iter().map(|s| s.content.as_str()).collect()).collect();
    assert_eq!(texts, vec!["## a & b".to_string(), String::new(), "\u{2500}".repeat(60), String::new()]);
    assert_eq!(lines[0].spans[0].style.fg, Some(Color::Green));
    assert!(render_xml(&h, "not xml").is_empty());
}

#[test]
fn fragments_become_colored_spans() {
    let raw = vec![
        Some(vec![
            Fragment { r: 1, g: 2, b: 3, text: "let".to_string() },
            Fragment { r: 4, g: 5, b: 6, text: " x\n".to_string() },
        ]),
        None,
        Some(vec![]),
    ];
    let lines = lines_of_fragments(&raw);
    assert_eq!(lines.len(), 2);
    assert_eq!(lines[0].spans.len(), 2);
    assert_eq!(lines[0].spans[0].content, "let");
    assert_eq!(lines[0].spans[0].style.fg, Some(Color::Rgb(1, 2, 3)));
    assert_eq!(lines[0].spans[1].content, " x");
    assert_eq!(lines[0].spans[1].style.fg, Some(Color::Rgb(4, 5, 6)));
    assert!(lines[1].spans.is_empty());
}

#[test]
fn highlighting_colors_and_trims_lines() {
    let h = Highlighter::new();
    let lines = highlight_code(&h, "let x = 1;\nlet y = 2;\n", "rust");
    assert_eq!(lines.len(), 2);
    let text: String = lines[0].spans.iter().map(|s| s.content.as_str()).collect();
    assert_eq!(text, "let x = 1;");
    assert!(lines[0].spans.len() > 1);
    assert!(lines.iter().flat_map(|l| l.spans.iter()).all(|s| !s.content.ends_with('\n')));
    assert!(lines[0].spans.iter().all(|s| matches!(s.style.fg, Some(Color::Rgb(_, _, _)))));
    let plain = highlight_code(&h, "a\nb", "");
    assert_eq!(plain.len(), 2);
    assert_eq!(plain[1].spans[0].content, "b");
    let unknown = highlight_code(&h, "a", "no-such-language");
    assert_eq!(unknown.len(), 1);
}

#[test]
fn law_written_tree_is_read_back() {
    let xml = format!(
        "{}<document>\n  <list type=\"bullet\" tight=\"true\">\n    <item>\n      <paragraph>\n        <text xml:space=\"preserve\">x &amp;&amp; &lt;y&gt;</text>\n      </paragraph>\n    </item>\n  </list>\n  <code_block info=\"a\"b\" xml:space=\"preserve\">1 &lt; 2\n</code_block>\n</document>\n",
        HEADER
    );
    let doc = decode_document(&xml).expect("written form");
    assert_eq!(doc.tag, Tag::Document);
    assert_eq!(doc.children.len(), 2);
    let list = &doc.children[0];
    assert_eq!(list.tag, Tag::List);
    assert_eq!(attr_value(&list.attrs, "type"), Some("bullet".to_string()));
    assert_eq!(attr_value(&list.attrs, "tight"), Some("true".to_string()));
    let text = &list.children[0].children[0].children[0];
    assert_eq!(text.tag, Tag::Text);
    assert_eq!(text.literal, "x && <y>");
    let code = &doc.children[1];
    assert_eq!(code.tag, Tag::CodeBlock);
    assert_eq!(attr_value(&code.attrs, "info"), Some("a\"b".to_string()));
    assert_eq!(code.literal, "1 < 2\n");
    assert!(code.children.is_empty());
}
