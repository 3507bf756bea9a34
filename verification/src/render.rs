//! Rendering a Markdown document into styled lines.

use vstd::prelude::*;
use vstd::string::StringExecFns;
use crate::highlight::{Highlighter, highlight_code, highlighted_code, theme_name};
use crate::markdown::{comrak_options, comrak_xml, gfm_options, markdown_to_xml};
use crate::style::{Color, Line, Modifier, Span, SpanV, Style, lines_view, spans_view};
use crate::text::{
    chars_of, decimal, display_width, parse_usize, parse_usize_spec, push_decimal, repeat_seq,
    repeat_str, string_of, text_width, trim_chars, trim_seq, utf8_len, utf8_len_capped,
};
use crate::tree::{Elem, ElemV, Tag, attr_of, attr_value, attrs_view, elems_view, lemma_elems_view};
use crate::xml::{decode_document, lemma_read_back, parse_document, print_document, wf_elem};

verus! {

/// The number that attribute `key` holds, 0 when it is missing or not a number.
pub open spec fn attr_num(attrs: Seq<(Seq<char>, Seq<char>)>, key: Seq<char>) -> nat {
    match attr_of(attrs, key) {
        Some(v) => match parse_usize_spec(v) {
            Some(n) => n as nat,
            None => 0,
        },
        None => 0,
    }
}

/// The text that attribute `key` holds, empty when it is missing.
pub open spec fn attr_text(attrs: Seq<(Seq<char>, Seq<char>)>, key: Seq<char>) -> Seq<char> {
    match attr_of(attrs, key) {
        Some(v) => v,
        None => Seq::empty(),
    }
}

/// The style of a heading of the given level.
pub open spec fn heading_style_spec(level: nat) -> Style {
    let bold = Style::plain().with_modifier(Modifier { bold: true, ..Modifier::spec_none() });
    if level == 1 {
        Style::plain().with_fg(Color::Cyan).with_modifier(Modifier { bold: true, ..Modifier::spec_none() })
    } else if level == 2 {
        Style::plain().with_fg(Color::Green).with_modifier(Modifier { bold: true, ..Modifier::spec_none() })
    } else if level == 3 {
        Style::plain().with_fg(Color::Yellow).with_modifier(Modifier { bold: true, ..Modifier::spec_none() })
    } else if level == 4 {
        Style::plain().with_fg(Color::Magenta).with_modifier(Modifier { bold: true, ..Modifier::spec_none() })
    } else {
        bold
    }
}

/// The five kinds of alert.
#[derive(Clone, Copy, Debug, PartialEq, Eq, Structural)]
pub enum AlertKind {
    Note,
    Tip,
    Important,
    Warning,
    Caution,
}

/// The kind of alert named by the `type` attribute (note when it names none).
pub open spec fn alert_kind_of(t: Seq<char>) -> AlertKind {
    if t == "tip"@ {
        AlertKind::Tip
    } else if t == "important"@ {
        AlertKind::Important
    } else if t == "warning"@ {
        AlertKind::Warning
    } else if t == "caution"@ {
        AlertKind::Caution
    } else {
        AlertKind::Note
    }
}

pub open spec fn alert_color_spec(k: AlertKind) -> Color {
    match k {
        AlertKind::Note => Color::Blue,
        AlertKind::Tip => Color::Green,
        AlertKind::Important => Color::Magenta,
        AlertKind::Warning => Color::Yellow,
        AlertKind::Caution => Color::Red,
    }
}

pub open spec fn alert_icon_spec(k: AlertKind) -> Seq<char> {
    match k {
        AlertKind::Note => "\u{2139}"@,
        AlertKind::Tip => "\u{1f4a1}"@,
        AlertKind::Important => "\u{2757}"@,
        AlertKind::Warning => "\u{26a0}"@,
        AlertKind::Caution => "\u{1f534}"@,
    }
}

pub open spec fn alert_default_title(k: AlertKind) -> Seq<char> {
    match k {
        AlertKind::Note => "Note"@,
        AlertKind::Tip => "Tip"@,
        AlertKind::Important => "Important"@,
        AlertKind::Warning => "Warning"@,
        AlertKind::Caution => "Caution"@,
    }
}

/// The title an alert shows: its own title, else the default title of its kind.
pub open spec fn alert_title(attrs: Seq<(Seq<char>, Seq<char>)>) -> Seq<char> {
    match attr_of(attrs, "title"@) {
        Some(t) => t,
        None => alert_default_title(alert_kind_of(attr_text(attrs, "type"@))),
    }
}

pub open spec fn span(content: Seq<char>, style: Style) -> SpanV {
    SpanV { content, style }
}

pub open spec fn fg(c: Color) -> Style {
    Style::plain().with_fg(c)
}

pub open spec fn modifier_bold() -> Modifier { Modifier { bold: true, ..Modifier::spec_none() } }
pub open spec fn modifier_dim() -> Modifier { Modifier { dim: true, ..Modifier::spec_none() } }
pub open spec fn modifier_italic() -> Modifier { Modifier { italic: true, ..Modifier::spec_none() } }
pub open spec fn modifier_underlined() -> Modifier { Modifier { underlined: true, ..Modifier::spec_none() } }
pub open spec fn modifier_crossed_out() -> Modifier { Modifier { crossed_out: true, ..Modifier::spec_none() } }

/// The concatenated text of a sequence of spans.
pub open spec fn spans_text(s: Seq<SpanV>) -> Seq<char>
    decreases s.len(),
{
    if s.len() == 0 {
        Seq::empty()
    } else {
        spans_text(s.drop_last()) + s.last().content
    }
}

/// The spans of the inline children `c`, on top of the style `base`.
pub open spec fn inline_spans(c: Seq<ElemV>, base: Style) -> Seq<SpanV>
    decreases c,
{
    if c.len() == 0 {
        Seq::empty()
    } else {
        inline_spans(c.drop_last(), base) + inline_one(c.last(), base)
    }
}

/// The spans of one inline element, on top of the style `base`.
pub open spec fn inline_one(e: ElemV, base: Style) -> Seq<SpanV>
    decreases e,
{
    match e.tag {
        Tag::Text => seq![span(e.literal, base)],
        Tag::Code => seq![span("`"@ + e.literal + "`"@, base.with_fg(Color::Yellow).with_modifier(modifier_dim()))],
        Tag::Emph => inline_spans(e.children, base.with_modifier(modifier_italic())),
        Tag::Strong => inline_spans(e.children, base.with_modifier(modifier_bold())),
        Tag::Strikethrough => inline_spans(
            e.children,
            base.with_modifier(modifier_crossed_out()).with_fg(Color::DarkGray),
        ),
        Tag::Link => inline_spans(
            e.children,
            base.with_fg(Color::Blue).with_modifier(modifier_underlined()),
        ) + seq![span(" ("@ + attr_text(e.attrs, "destination"@) + ")"@, fg(Color::DarkGray))],
        Tag::Image => {
            let alt = spans_text(inline_spans(e.children, Style::plain()));
            let label = if alt.len() == 0 { attr_text(e.attrs, "destination"@) } else { alt };
            seq![span("[image: "@ + label + "]"@, fg(Color::DarkGray).with_modifier(modifier_italic()))]
        },
        Tag::SoftBreak => seq![span(" "@, Style::plain())],
        Tag::LineBreak => seq![span(" "@, Style::plain())],
        Tag::TaskItem => Seq::empty(),
        _ => inline_spans(e.children, base),
    }
}

/// The text of a table cell's inline children: text as it is, code spans
/// between backquotes, line breaks as spaces.
pub open spec fn cell_text(c: Seq<ElemV>) -> Seq<char>
    decreases c,
{
    if c.len() == 0 {
        Seq::empty()
    } else {
        cell_text(c.drop_last()) + cell_piece(c.last())
    }
}

pub open spec fn cell_piece(e: ElemV) -> Seq<char>
    decreases e,
{
    match e.tag {
        Tag::Text => e.literal,
        Tag::Code => "`"@ + e.literal + "`"@,
        Tag::SoftBreak => " "@,
        Tag::LineBreak => " "@,
        _ => cell_text(e.children),
    }
}

/// The cell texts of each row of a table.
pub open spec fn table_rows(rows: Seq<ElemV>) -> Seq<Seq<Seq<char>>> {
    rows.map_values(|r: ElemV| r.children.map_values(|c: ElemV| cell_text(c.children)))
}

pub open spec fn max(a: nat, b: nat) -> nat {
    if a >= b { a } else { b }
}

/// The largest number of cells in a row.
pub open spec fn num_cols(rows: Seq<Seq<Seq<char>>>) -> nat
    decreases rows.len(),
{
    if rows.len() == 0 {
        0
    } else {
        max(num_cols(rows.drop_last()), rows.last().len())
    }
}

/// The width of column `i`: the widest of its cells.
pub open spec fn col_width(rows: Seq<Seq<Seq<char>>>, i: int) -> nat
    decreases rows.len(),
{
    if rows.len() == 0 {
        0
    } else {
        let w = if i < rows.last().len() { text_width(rows.last()[i]) } else { 0 };
        max(col_width(rows.drop_last(), i), w)
    }
}

pub open spec fn sat_sub(a: nat, b: nat) -> nat {
    if a >= b { (a - b) as nat } else { 0 }
}

pub open spec fn border() -> Style {
    fg(Color::DarkGray)
}

pub open spec fn header_style() -> Style {
    fg(Color::Cyan).with_modifier(modifier_bold())
}

/// The spans of the first `n` cells of a row: each cell padded with spaces to
/// its column's width, followed by a column border.
pub open spec fn row_cells(rows: Seq<Seq<Seq<char>>>, row: Seq<Seq<char>>, style: Style, n: nat) -> Seq<SpanV>
    decreases n,
{
    if n == 0 {
        Seq::empty()
    } else {
        let i = n - 1;
        let cell = row[i];
        row_cells(rows, row, style, (n - 1) as nat) + seq![
            span(cell + repeat_seq(" "@, sat_sub(col_width(rows, i), text_width(cell))), style),
            span(" \u{2502} "@, border()),
        ]
    }
}

/// The line of one table row.
pub open spec fn row_line(rows: Seq<Seq<Seq<char>>>, row: Seq<Seq<char>>, is_header: bool) -> Seq<SpanV> {
    let style = if is_header { header_style() } else { Style::plain() };
    seq![span("\u{2502} "@, border())] + row_cells(rows, row, style, row.len())
}

/// The spans for the first `n` columns of the line under the header.
pub open spec fn sep_cells(rows: Seq<Seq<Seq<char>>>, n: nat) -> Seq<SpanV>
    decreases n,
{
    if n == 0 {
        Seq::empty()
    } else {
        let i = n - 1;
        let joint = if i + 1 < num_cols(rows) { seq![span("\u{2500}\u{253c}\u{2500}"@, border())] } else { Seq::empty() };
        sep_cells(rows, (n - 1) as nat) + seq![span(repeat_seq("\u{2500}"@, col_width(rows, i)), border())] + joint
    }
}

/// The line under the header row.
pub open spec fn sep_line(rows: Seq<Seq<Seq<char>>>) -> Seq<SpanV> {
    seq![span("\u{251c}\u{2500}"@, border())] + sep_cells(rows, num_cols(rows)) + seq![span("\u{2500}\u{2524}"@, border())]
}

/// The lines of the first `n` rows of a table; the first row is the header
/// and is followed by the line under it.
pub open spec fn table_body(rows: Seq<Seq<Seq<char>>>, n: nat) -> Seq<Seq<SpanV>>
    decreases n,
{
    if n == 0 {
        Seq::empty()
    } else {
        let i = n - 1;
        let line = row_line(rows, rows[i], i == 0);
        table_body(rows, (n - 1) as nat) + if i == 0 { seq![line, sep_line(rows)] } else { seq![line] }
    }
}

/// The lines of a table.
pub open spec fn table_lines(t: Seq<ElemV>) -> Seq<Seq<SpanV>> {
    let rows = table_rows(t);
    table_body(rows, rows.len())
}

/// The bullet of item `idx` of a list at depth `depth`.
pub open spec fn bullet(depth: nat, ordered: bool, number: nat) -> Seq<char> {
    let indent = repeat_seq("  "@, depth);
    if ordered {
        indent + decimal(number) + ". "@
    } else {
        indent + "\u{2022} "@
    }
}

/// The check box of a task: `[x] ` when completed, `[ ] ` otherwise.
pub open spec fn task_box(e: ElemV, depth: nat) -> Seq<char> {
    repeat_seq("  "@, depth) + if attr_of(e.attrs, "completed"@) == Some("true"@) { "[x] "@ } else { "[ ] "@ }
}

/// The first task element among `c`, if any.
pub open spec fn first_task(c: Seq<ElemV>) -> Option<ElemV>
    decreases c.len(),
{
    if c.len() == 0 {
        None
    } else if c[0].tag == Tag::TaskItem {
        Some(c[0])
    } else {
        first_task(c.drop_first())
    }
}

/// What an item starts with: its check box when it is a task (or holds one),
/// its bullet otherwise.
pub open spec fn item_marker(item: ElemV, idx: nat, depth: nat, ordered: bool, start: nat) -> Seq<char> {
    if item.tag == Tag::TaskItem {
        task_box(item, depth)
    } else {
        match first_task(item.children) {
            Some(t) => task_box(t, depth),
            None => bullet(depth, ordered, start + idx),
        }
    }
}

pub open spec fn list_ordered(attrs: Seq<(Seq<char>, Seq<char>)>) -> bool {
    attr_of(attrs, "type"@) == Some("ordered"@)
}

/// The depth of a list nested one level deeper (it stays put at the largest
/// `usize`, which no document reaches).
pub open spec fn deeper(depth: nat) -> nat {
    if depth < usize::MAX { depth + 1 } else { depth }
}

/// The lines of the items `items` of a list at depth `depth`.
pub open spec fn list_lines(items: Seq<ElemV>, depth: nat, ordered: bool, start: nat) -> Seq<Seq<SpanV>>
    decreases items,
{
    if items.len() == 0 {
        Seq::empty()
    } else {
        list_lines(items.drop_last(), depth, ordered, start) + item_lines(
            items.last(),
            (items.len() - 1) as nat,
            depth,
            ordered,
            start,
        )
    }
}

/// The lines of one list item.
pub open spec fn item_lines(item: ElemV, idx: nat, depth: nat, ordered: bool, start: nat) -> Seq<Seq<SpanV>>
    decreases item,
{
    let first = seq![span(item_marker(item, idx, depth, ordered, start), fg(Color::Cyan))];
    let (lines, rest) = item_fold(item.children, depth, first);
    if rest.len() > 0 {
        lines.push(rest)
    } else {
        lines
    }
}

/// The lines of the children `c` of an item, and the spans still pending
/// after them: a paragraph ends a line, a nested list is rendered one level
/// deeper, other children are left out.
pub open spec fn item_fold(c: Seq<ElemV>, depth: nat, first: Seq<SpanV>) -> (Seq<Seq<SpanV>>, Seq<SpanV>)
    decreases c,
{
    if c.len() == 0 {
        (Seq::empty(), first)
    } else {
        let (lines, pending) = item_fold(c.drop_last(), depth, first);
        let e = c.last();
        match e.tag {
            Tag::Paragraph => (lines.push(pending + inline_spans(e.children, Style::plain())), Seq::empty()),
            Tag::List => {
                let flushed = if pending.len() > 0 { lines.push(pending) } else { lines };
                (
                    flushed + list_lines(
                        e.children,
                        deeper(depth),
                        list_ordered(e.attrs),
                        attr_num(e.attrs, "start"@),
                    ),
                    Seq::empty(),
                )
            },
            _ => (lines, pending),
        }
    }
}

/// `lines` behind a bar of the given color, their spans recolored.
pub open spec fn quoted(lines: Seq<Seq<SpanV>>, color: Color) -> Seq<Seq<SpanV>> {
    lines.map_values(
        |l: Seq<SpanV>|
            seq![span("\u{2502} "@, fg(color))] + l.map_values(
                |s: SpanV| span(s.content, s.style.with_fg(color)),
            ),
    )
}

/// The label of a code block: its language, or `code` when it has none.
pub open spec fn code_label(lang: Seq<char>) -> Seq<char> {
    if lang.len() == 0 { "code"@ } else { lang }
}

/// The lines of a code block: a top border with the label, the highlighted
/// code, a bottom border and an empty line.
pub open spec fn code_block_lines(lang: Seq<char>, code: Seq<char>) -> Seq<Seq<SpanV>> {
    let label = code_label(lang);
    let top_pad = sat_sub(50, utf8_len(label) + 4);
    seq![seq![span("\u{250c}\u{2500} "@ + label + " "@ + repeat_seq("\u{2500}"@, top_pad), border())]]
        + highlighted_code(code, lang)
        + seq![seq![span("\u{2514}"@ + repeat_seq("\u{2500}"@, 49), border())], Seq::empty()]
}

/// The indentation of a paragraph at list depth `depth`.
pub open spec fn para_indent(depth: nat) -> Seq<SpanV> {
    if depth > 0 {
        seq![span(repeat_seq("  "@, depth), Style::plain())]
    } else {
        Seq::empty()
    }
}

/// The lines of the block children `c` at list depth `depth`.
pub open spec fn blocks_lines(c: Seq<ElemV>, depth: nat) -> Seq<Seq<SpanV>>
    decreases c,
{
    if c.len() == 0 {
        Seq::empty()
    } else {
        blocks_lines(c.drop_last(), depth) + block_lines(c.last(), depth)
    }
}

/// The lines of one block at list depth `depth`.
pub open spec fn block_lines(e: ElemV, depth: nat) -> Seq<Seq<SpanV>>
    decreases e,
{
    match e.tag {
        Tag::Heading => {
            let level = attr_num(e.attrs, "level"@);
            let style = heading_style_spec(level);
            seq![
                seq![span(repeat_seq("#"@, level) + " "@, style)] + inline_spans(e.children, style),
                Seq::empty(),
            ]
        },
        Tag::Paragraph => seq![para_indent(depth) + inline_spans(e.children, Style::plain()), Seq::empty()],
        Tag::CodeBlock => code_block_lines(trim_seq(attr_text(e.attrs, "info"@)), e.literal),
        Tag::List => list_lines(e.children, depth, list_ordered(e.attrs), attr_num(e.attrs, "start"@))
            + seq![Seq::empty()],
        Tag::Alert => {
            let kind = alert_kind_of(attr_text(e.attrs, "type"@));
            let color = alert_color_spec(kind);
            seq![seq![span(alert_icon_spec(kind) + " "@ + alert_title(e.attrs), fg(color).with_modifier(modifier_bold()))]]
                + quoted(blocks_lines(e.children, depth), color) + seq![Seq::empty()]
        },
        Tag::BlockQuote => quoted(blocks_lines(e.children, depth), Color::DarkGray) + seq![Seq::empty()],
        Tag::ThematicBreak => seq![seq![span(repeat_seq("\u{2500}"@, 60), border())], Seq::empty()],
        Tag::Table => table_lines(e.children) + seq![Seq::empty()],
        Tag::FrontMatter => Seq::empty(),
        Tag::HtmlBlock => Seq::empty(),
        _ => blocks_lines(e.children, depth),
    }
}

/// The lines of the document whose XML form is `xml` (none if it is not
/// one).
pub open spec fn rendered_xml(xml: Seq<char>) -> Seq<Seq<SpanV>> {
    match parse_document(xml) {
        Some(doc) => blocks_lines(doc.children, 0),
        None => Seq::empty(),
    }
}

/// The lines a Markdown source renders to: those of the document comrak
/// parses it into, read back from comrak's XML form.
pub open spec fn rendered(source: Seq<char>) -> Seq<Seq<SpanV>> {
    rendered_xml(comrak_xml(source, gfm_options()))
}

/// The string `s`.
pub fn lit(s: &str) -> (r: String)
    ensures
        r@ == s@,
{
    let mut r = String::new();
    r.append(s);
    r
}

/// The text of attribute `key`, empty when it is missing.
fn attr_text_exec(attrs: &Vec<crate::tree::Attr>, key: &str) -> (r: String)
    ensures
        r@ == attr_text(attrs_view(attrs@), key@),
{
    match attr_value(attrs, key) {
        Some(v) => v,
        None => String::new(),
    }
}

/// The concatenated text of spans.
pub fn spans_text_exec(s: &Vec<Span>) -> (r: String)
    ensures
        r@ == spans_text(spans_view(s@)),
{
    let mut r = String::new();
    let mut i: usize = 0;
    while i < s.len()
        invariant
            i <= s@.len(),
            r@ == spans_text(spans_view(s@).take(i as int)),
        decreases s@.len() - i,
    {
        assert(spans_view(s@).take(i + 1).drop_last() =~= spans_view(s@).take(i as int));
        r.append(s[i].content.as_str());
        i += 1;
    }
    assert(spans_view(s@).take(i as int) =~= spans_view(s@));
    r
}

/// Appends one span.
fn push_span(spans: &mut Vec<Span>, content: String, style: Style)
    ensures
        spans_view(final(spans)@) == spans_view(old(spans)@).push(span(content@, style)),
{
    spans.push(Span::styled(content, style));
    assert(spans_view(spans@) =~= spans_view(old(spans)@).push(span(content@, style)));
}

/// Collects the spans of the inline children `children` on top of `base`.
fn collect_inline_spans(children: &Vec<Elem>, spans: &mut Vec<Span>, base: Style)
    ensures
        spans_view(final(spans)@) == spans_view(old(spans)@) + inline_spans(elems_view(children@), base),
    decreases children,
{
    let ghost cv = elems_view(children@);
    proof {
        lemma_elems_view(children@);
    }
    let mut i: usize = 0;
    assert(spans_view(spans@) =~= spans_view(old(spans)@) + inline_spans(cv.take(0), base));
    while i < children.len()
        invariant
            i <= children@.len(),
            cv == elems_view(children@),
            cv.len() == children@.len(),
            forall|j: int| 0 <= j < children@.len() ==> #[trigger] cv[j] == children@[j]@,
            spans_view(spans@) == spans_view(old(spans)@) + inline_spans(cv.take(i as int), base),
        decreases children@.len() - i,
    {
        let ghost before = spans_view(spans@);
        inline_one_exec(&children[i], spans, base);
        assert(cv.take(i + 1).drop_last() =~= cv.take(i as int));
        assert(cv.take(i + 1).last() == children@[i as int]@);
        assert(spans_view(spans@) =~= spans_view(old(spans)@) + inline_spans(cv.take(i + 1), base));
        i += 1;
    }
    assert(cv.take(i as int) =~= cv);
}

/// Collects the spans of one inline element on top of `base`.
fn inline_one_exec(e: &Elem, spans: &mut Vec<Span>, base: Style)
    ensures
        spans_view(final(spans)@) == spans_view(old(spans)@) + inline_one(e@, base),
    decreases e,
{
    let ghost ev = e@;
    assert(ev.children == elems_view(e.children@));
    assert(ev.attrs == attrs_view(e.attrs@));
    match e.tag {
        Tag::Text => {
            push_span(spans, e.literal.clone(), base);
            assert(spans_view(spans@) =~= spans_view(old(spans)@) + inline_one(ev, base));
        },
        Tag::Code => {
            let mut t = lit("`");
            t.append(e.literal.as_str());
            t.append("`");
            push_span(spans, t, base.fg(Color::Yellow).add_modifier(Modifier::dim()));
            assert(spans_view(spans@) =~= spans_view(old(spans)@) + inline_one(ev, base));
        },
        Tag::Emph => {
            collect_inline_spans(&e.children, spans, base.add_modifier(Modifier::italic()));
        },
        Tag::Strong => {
            collect_inline_spans(&e.children, spans, base.add_modifier(Modifier::bold()));
        },
        Tag::Strikethrough => {
            collect_inline_spans(
                &e.children,
                spans,
                base.add_modifier(Modifier::crossed_out()).fg(Color::DarkGray),
            );
        },
        Tag::Link => {
            let url = attr_text_exec(&e.attrs, "destination");
            collect_inline_spans(
                &e.children,
                spans,
                base.fg(Color::Blue).add_modifier(Modifier::underlined()),
            );
            let ghost mid = spans_view(spans@);
            let mut t = lit(" (");
            t.append(url.as_str());
            t.append(")");
            push_span(spans, t, Style::new().fg(Color::DarkGray));
            assert(spans_view(spans@) =~= spans_view(old(spans)@) + inline_one(ev, base));
        },
        Tag::Image => {
            let url = attr_text_exec(&e.attrs, "destination");
            let mut alt_spans: Vec<Span> = Vec::new();
            assert(spans_view(alt_spans@) =~= Seq::<SpanV>::empty());
            collect_inline_spans(&e.children, &mut alt_spans, Style::new());
            assert(spans_view(alt_spans@) =~= inline_spans(ev.children, Style::plain()));
            let alt = spans_text_exec(&alt_spans);
            let mut t = lit("[image: ");
            if alt.as_str().is_empty() {
                t.append(url.as_str());
            } else {
                t.append(alt.as_str());
            }
            t.append("]");
            push_span(spans, t, Style::new().fg(Color::DarkGray).add_modifier(Modifier::italic()));
            assert(spans_view(spans@) =~= spans_view(old(spans)@) + inline_one(ev, base));
        },
        Tag::SoftBreak => {
            push_span(spans, lit(" "), Style::new());
            assert(spans_view(spans@) =~= spans_view(old(spans)@) + inline_one(ev, base));
        },
        Tag::LineBreak => {
            push_span(spans, lit(" "), Style::new());
            assert(spans_view(spans@) =~= spans_view(old(spans)@) + inline_one(ev, base));
        },
        Tag::TaskItem => {
            assert(spans_view(spans@) =~= spans_view(old(spans)@) + inline_one(ev, base));
        },
        _ => {
            collect_inline_spans(&e.children, spans, base);
        },
    }
}

/// Appends the cell text of the inline children `children` to `out`.
fn collect_cell_text(children: &Vec<Elem>, out: &mut String)
    ensures
        final(out)@ == old(out)@ + cell_text(elems_view(children@)),
    decreases children,
{
    let ghost cv = elems_view(children@);
    proof {
        lemma_elems_view(children@);
    }
    let mut i: usize = 0;
    assert(out@ =~= old(out)@ + cell_text(cv.take(0)));
    while i < children.len()
        invariant
            i <= children@.len(),
            cv == elems_view(children@),
            cv.len() == children@.len(),
            forall|j: int| 0 <= j < children@.len() ==> #[trigger] cv[j] == children@[j]@,
            out@ == old(out)@ + cell_text(cv.take(i as int)),
        decreases children@.len() - i,
    {
        let c = &children[i];
        let ghost before = out@;
        let ghost e = c@;
        assert(e.children == elems_view(c.children@));
        match c.tag {
            Tag::Text => {
                out.append(c.literal.as_str());
            },
            Tag::Code => {
                out.append("`");
                out.append(c.literal.as_str());
                out.append("`");
            },
            Tag::SoftBreak => {
                out.append(" ");
            },
            Tag::LineBreak => {
                out.append(" ");
            },
            _ => {
                collect_cell_text(&c.children, out);
            },
        }
        assert(out@ =~= before + cell_piece(cv[i as int]));
        assert(cv.take(i + 1).drop_last() =~= cv.take(i as int));
        i += 1;
    }
    assert(cv.take(i as int) =~= cv);
}

pub open spec fn rows_view(v: Seq<Vec<String>>) -> Seq<Seq<Seq<char>>> {
    v.map_values(|r: Vec<String>| r@.map_values(|c: String| c@))
}

proof fn lemma_num_cols(rows: Seq<Seq<Seq<char>>>, k: int)
    requires
        0 <= k < rows.len(),
    ensures
        rows[k].len() <= num_cols(rows),
    decreases rows.len(),
{
    if k < rows.len() - 1 {
        lemma_num_cols(rows.drop_last(), k);
    }
}

proof fn lemma_row_cells_take(rows: Seq<Seq<Seq<char>>>, row: Seq<Seq<char>>, style: Style, n: nat)
    ensures
        row_cells(rows, row, style, n + 1) == row_cells(rows, row, style, n) + seq![
            span(row[n as int] + repeat_seq(" "@, sat_sub(col_width(rows, n as int), text_width(row[n as int]))), style),
            span(" \u{2502} "@, border()),
        ],
{
}

/// Appends the lines of a table to `lines`.
fn render_table(rows_elems: &Vec<Elem>, lines: &mut Vec<Line>)
    ensures
        lines_view(final(lines)@) == lines_view(old(lines)@) + table_lines(elems_view(rows_elems@)),
{
    let ghost rv_elems = elems_view(rows_elems@);
    proof {
        lemma_elems_view(rows_elems@);
    }
    // The cell texts of every row.
    let mut rows: Vec<Vec<String>> = Vec::new();
    let mut r: usize = 0;
    while r < rows_elems.len()
        invariant
            r <= rows_elems@.len(),
            rv_elems == elems_view(rows_elems@),
            rv_elems.len() == rows_elems@.len(),
            forall|j: int| 0 <= j < rows_elems@.len() ==> #[trigger] rv_elems[j] == rows_elems@[j]@,
            rows_view(rows@) == table_rows(rv_elems.take(r as int)),
        decreases rows_elems@.len() - r,
    {
        let row_elem = &rows_elems[r];
        let ghost cells_v = elems_view(row_elem.children@);
        proof {
            lemma_elems_view(row_elem.children@);
        }
        assert(rv_elems[r as int].children == cells_v);
        let mut row: Vec<String> = Vec::new();
        let mut c: usize = 0;
        while c < row_elem.children.len()
            invariant
                c <= row_elem.children@.len(),
                cells_v == elems_view(row_elem.children@),
                cells_v.len() == row_elem.children@.len(),
                forall|j: int| 0 <= j < row_elem.children@.len() ==> #[trigger] cells_v[j] == row_elem.children@[j]@,
                row@.map_values(|x: String| x@) == cells_v.take(c as int).map_values(|x: ElemV| cell_text(x.children)),
            decreases row_elem.children@.len() - c,
        {
            let mut t = String::new();
            let cell = &row_elem.children[c];
            collect_cell_text(&cell.children, &mut t);
            assert(cell@.children == elems_view(cell.children@));
            assert(t@ =~= cell_text(cells_v[c as int].children));
            let ghost prev = row@.map_values(|x: String| x@);
            row.push(t);
            assert(row@.map_values(|x: String| x@) =~= prev.push(cell_text(cells_v[c as int].children)));
            assert(cells_v.take(c + 1) =~= cells_v.take(c as int).push(cells_v[c as int]));
            c += 1;
            assert(row@.map_values(|x: String| x@) =~= cells_v.take(c as int).map_values(|x: ElemV| cell_text(x.children)));
        }
        assert(cells_v.take(c as int) =~= cells_v);
        let ghost rowv = row@.map_values(|x: String| x@);
        assert(rowv == rv_elems[r as int].children.map_values(|x: ElemV| cell_text(x.children)));
        let ghost prev_rows = rows_view(rows@);
        rows.push(row);
        assert(rows_view(rows@) =~= prev_rows.push(rowv));
        assert(rv_elems.take(r + 1) =~= rv_elems.take(r as int).push(rv_elems[r as int]));
        r += 1;
        assert(rows_view(rows@) =~= table_rows(rv_elems.take(r as int)));
    }
    assert(rv_elems.take(r as int) =~= rv_elems);
    let ghost rs = rows_view(rows@);
    assert(rs == table_rows(rv_elems));
    if rows.len() == 0 {
        assert(table_lines(rv_elems) =~= Seq::<Seq<SpanV>>::empty());
        assert(lines_view(lines@) =~= lines_view(old(lines)@) + table_lines(rv_elems));
        return;
    }
    // The number of columns.
    let mut ncols: usize = 0;
    let mut k: usize = 0;
    while k < rows.len()
        invariant
            k <= rows@.len(),
            rs == rows_view(rows@),
            ncols == num_cols(rs.take(k as int)),
        decreases rows@.len() - k,
    {
        assert(rs.take(k + 1).drop_last() =~= rs.take(k as int));
        assert(rs[k as int].len() == rows@[k as int]@.len());
        if rows[k].len() > ncols {
            ncols = rows[k].len();
        }
        k += 1;
    }
    assert(rs.take(k as int) =~= rs);
    // The width of each column.
    let mut widths: Vec<usize> = Vec::new();
    while widths.len() < ncols
        invariant
            widths@.len() <= ncols,
            forall|i: int| 0 <= i < widths@.len() ==> widths@[i] == 0,
        decreases ncols - widths@.len(),
    {
        widths.push(0);
    }
    k = 0;
    while k < rows.len()
        invariant
            k <= rows@.len(),
            rs == rows_view(rows@),
            ncols == num_cols(rs),
            widths@.len() == ncols,
            forall|i: int| 0 <= i < ncols ==> widths@[i] as nat == col_width(rs.take(k as int), i),
        decreases rows@.len() - k,
    {
        let row = &rows[k];
        let ghost rowv = rs[k as int];
        assert(rs.take(k + 1).drop_last() =~= rs.take(k as int));
        assert(rs.take(k + 1).last() == rowv);
        proof {
            lemma_num_cols(rs, k as int);
        }
        let mut i: usize = 0;
        while i < row.len()
            invariant
                i <= row@.len(),
                rowv == row@.map_values(|c: String| c@),
                rowv.len() <= ncols,
                widths@.len() == ncols,
                rs.take(k + 1).drop_last() == rs.take(k as int),
                rs.take(k + 1).last() == rowv,
                rs.take(k + 1).len() > 0,
                forall|j: int| 0 <= j < i ==> widths@[j] as nat == col_width(rs.take(k + 1), j),
                forall|j: int| i <= j < ncols ==> widths@[j] as nat == col_width(rs.take(k as int), j),
            decreases row@.len() - i,
        {
            let w = display_width(row[i].as_str());
            assert(rowv[i as int] == row@[i as int]@);
            if w > widths[i] {
                widths.set(i, w);
            }
            i += 1;
        }
        assert forall|j: int| row@.len() <= j < ncols implies widths@[j] as nat == col_width(rs.take(k + 1), j) by {
        }
        k += 1;
    }
    assert(rs.take(k as int) =~= rs);
    // The lines.
    let ghost base = lines_view(lines@);
    k = 0;
    while k < rows.len()
        invariant
            k <= rows@.len(),
            rows@.len() > 0,
            rs == rows_view(rows@),
            ncols == num_cols(rs),
            widths@.len() == ncols,
            forall|i: int| 0 <= i < ncols ==> widths@[i] as nat == col_width(rs, i),
            lines_view(lines@) == base + table_body(rs, k as nat),
        decreases rows@.len() - k,
    {
        let row = &rows[k];
        let ghost rowv = rs[k as int];
        assert(rowv == row@.map_values(|c: String| c@));
        proof {
            lemma_num_cols(rs, k as int);
        }
        let is_header = k == 0;
        let style = if is_header {
            Style::new().fg(Color::Cyan).add_modifier(Modifier::bold())
        } else {
            Style::new()
        };
        let mut spans: Vec<Span> = Vec::new();
        push_span(&mut spans, lit("\u{2502} "), Style::new().fg(Color::DarkGray));
        let mut i: usize = 0;
        while i < row.len()
            invariant
                i <= row@.len(),
                rowv == row@.map_values(|c: String| c@),
                rowv.len() <= ncols,
                widths@.len() == ncols,
                forall|j: int| 0 <= j < ncols ==> widths@[j] as nat == col_width(rs, j),
                spans_view(spans@) == seq![span("\u{2502} "@, border())] + row_cells(rs, rowv, style, i as nat),
            decreases row@.len() - i,
        {
            let cell = &row[i];
            assert(rowv[i as int] == cell@);
            let w = display_width(cell.as_str());
            let pad = if widths[i] >= w { widths[i] - w } else { 0 };
            let mut t = cell.clone();
            let sp = repeat_str(" ", pad);
            t.append(sp.as_str());
            push_span(&mut spans, t, style);
            push_span(&mut spans, lit(" \u{2502} "), Style::new().fg(Color::DarkGray));
            proof {
                lemma_row_cells_take(rs, rowv, style, i as nat);
            }
            i += 1;
            assert(spans_view(spans@) =~= seq![span("\u{2502} "@, border())] + row_cells(rs, rowv, style, i as nat));
        }
        let ghost before = lines_view(lines@);
        lines.push(Line::from_spans(spans));
        assert(lines_view(lines@) =~= before.push(row_line(rs, rowv, is_header)));
        if is_header {
            let mut sep: Vec<Span> = Vec::new();
            push_span(&mut sep, lit("\u{251c}\u{2500}"), Style::new().fg(Color::DarkGray));
            let mut i: usize = 0;
            while i < widths.len()
                invariant
                    i <= widths@.len(),
                    widths@.len() == ncols,
                    ncols == num_cols(rs),
                    forall|j: int| 0 <= j < ncols ==> widths@[j] as nat == col_width(rs, j),
                    spans_view(sep@) == seq![span("\u{251c}\u{2500}"@, border())] + sep_cells(rs, i as nat),
                decreases widths@.len() - i,
            {
                let ghost s0 = spans_view(sep@);
                push_span(&mut sep, repeat_str("\u{2500}", widths[i]), Style::new().fg(Color::DarkGray));
                if i < ncols - 1 {
                    push_span(&mut sep, lit("\u{2500}\u{253c}\u{2500}"), Style::new().fg(Color::DarkGray));
                }
                i += 1;
                assert(spans_view(sep@) =~= seq![span("\u{251c}\u{2500}"@, border())] + sep_cells(rs, i as nat));
            }
            push_span(&mut sep, lit("\u{2500}\u{2524}"), Style::new().fg(Color::DarkGray));
            let ghost before2 = lines_view(lines@);
            lines.push(Line::from_spans(sep));
            assert(spans_view(sep@) =~= sep_line(rs));
            assert(lines_view(lines@) =~= before2.push(sep_line(rs)));
        }
        k += 1;
        assert(lines_view(lines@) =~= base + table_body(rs, k as nat));
    }
    assert(lines_view(lines@) =~= lines_view(old(lines)@) + table_lines(rv_elems));
}

/// The number attribute `key` holds, 0 when it is missing or not a number.
fn attr_num_exec(attrs: &Vec<crate::tree::Attr>, key: &str) -> (n: usize)
    ensures
        n as nat == attr_num(attrs_view(attrs@), key@),
{
    match attr_value(attrs, key) {
        Some(v) => {
            let cs = chars_of(v.as_str());
            match parse_usize(&cs) {
                Some(n) => n,
                None => 0,
            }
        },
        None => 0,
    }
}

/// Whether the list element's attributes make it an ordered list.
fn list_ordered_exec(attrs: &Vec<crate::tree::Attr>) -> (b: bool)
    ensures
        b == list_ordered(attrs_view(attrs@)),
{
    match attr_value(attrs, "type") {
        Some(v) => {
            let r = crate::text::strings_equal(v.as_str(), "ordered");
            proof {
                if v@ == "ordered"@ {
                } else {
                    assert(Some(v@) != Some("ordered"@));
                }
            }
            r
        },
        None => false,
    }
}

/// The check box of a task element.
fn task_box_exec(e: &Elem, depth: usize) -> (r: String)
    ensures
        r@ == task_box(e@, depth as nat),
{
    let mut r = repeat_str("  ", depth);
    let done = match attr_value(&e.attrs, "completed") {
        Some(v) => crate::text::strings_equal(v.as_str(), "true"),
        None => false,
    };
    assert(e@.attrs == attrs_view(e.attrs@));
    proof {
        match attr_of(e@.attrs, "completed"@) {
            Some(v) => {
                assert(done == (v == "true"@));
            },
            None => {},
        }
    }
    if done {
        r.append("[x] ");
    } else {
        r.append("[ ] ");
    }
    r
}

/// What a list item starts with.
fn item_marker_exec(item: &Elem, idx: usize, depth: usize, ordered: bool, start: usize) -> (r: String)
    ensures
        r@ == item_marker(item@, idx as nat, depth as nat, ordered, start as nat),
{
    if item.tag == Tag::TaskItem {
        return task_box_exec(item, depth);
    }
    let ghost cv = elems_view(item.children@);
    proof {
        lemma_elems_view(item.children@);
    }
    assert(item@.children == cv);
    let mut j: usize = 0;
    assert(cv.skip(0) =~= cv);
    while j < item.children.len()
        invariant
            j <= item.children@.len(),
            cv == elems_view(item.children@),
            cv.len() == item.children@.len(),
            forall|k: int| 0 <= k < item.children@.len() ==> #[trigger] cv[k] == item.children@[k]@,
            first_task(cv) == first_task(cv.skip(j as int)),
            item.tag != Tag::TaskItem,
            item@.children == cv,
            item@.tag == item.tag,
        decreases item.children@.len() - j,
    {
        assert(cv.skip(j as int)[0] == cv[j as int]);
        assert(cv.skip(j as int).drop_first() =~= cv.skip(j + 1));
        if item.children[j].tag == Tag::TaskItem {
            return task_box_exec(&item.children[j], depth);
        }
        j += 1;
    }
    assert(cv.skip(j as int).len() == 0);
    let mut r = repeat_str("  ", depth);
    if ordered {
        push_decimal(&mut r, start as u128 + idx as u128);
        r.append(". ");
    } else {
        r.append("\u{2022} ");
    }
    r
}

/// Appends the lines of the list items `items` at depth `depth`.
fn render_list_items(items: &Vec<Elem>, lines: &mut Vec<Line>, depth: usize, ordered: bool, start: usize)
    ensures
        lines_view(final(lines)@) == lines_view(old(lines)@) + list_lines(
            elems_view(items@),
            depth as nat,
            ordered,
            start as nat,
        ),
    decreases items,
{
    let ghost cv = elems_view(items@);
    proof {
        lemma_elems_view(items@);
    }
    let ghost base = lines_view(lines@);
    let mut idx: usize = 0;
    assert(lines_view(lines@) =~= base + list_lines(cv.take(0), depth as nat, ordered, start as nat));
    while idx < items.len()
        invariant
            idx <= items@.len(),
            cv == elems_view(items@),
            cv.len() == items@.len(),
            forall|k: int| 0 <= k < items@.len() ==> #[trigger] cv[k] == items@[k]@,
            base == lines_view(old(lines)@),
            lines_view(lines@) == base + list_lines(cv.take(idx as int), depth as nat, ordered, start as nat),
        decreases items@.len() - idx,
    {
        let ghost before = lines_view(lines@);
        render_item(&items[idx], idx, lines, depth, ordered, start);
        assert(cv.take(idx + 1).drop_last() =~= cv.take(idx as int));
        assert(cv.take(idx + 1).last() == items@[idx as int]@);
        idx += 1;
        assert(lines_view(lines@) =~= base + list_lines(cv.take(idx as int), depth as nat, ordered, start as nat));
    }
    assert(cv.take(idx as int) =~= cv);
}

/// Appends the lines of one list item.
fn render_item(item: &Elem, idx: usize, lines: &mut Vec<Line>, depth: usize, ordered: bool, start: usize)
    ensures
        lines_view(final(lines)@) == lines_view(old(lines)@) + item_lines(
            item@,
            idx as nat,
            depth as nat,
            ordered,
            start as nat,
        ),
    decreases item,
{
    let ghost cv = elems_view(item.children@);
    proof {
        lemma_elems_view(item.children@);
    }
    assert(item@.children == cv);
    let marker = item_marker_exec(item, idx, depth, ordered, start);
    let mut pending: Vec<Span> = Vec::new();
    push_span(&mut pending, marker, Style::new().fg(Color::Cyan));
    let ghost first = spans_view(pending@);
    assert(first =~= seq![span(item_marker(item@, idx as nat, depth as nat, ordered, start as nat), fg(Color::Cyan))]);
    let ghost base = lines_view(lines@);
    let mut j: usize = 0;
    assert(item_fold(cv.take(0), depth as nat, first) == (Seq::<Seq<SpanV>>::empty(), first));
    assert(lines_view(lines@) =~= base + Seq::<Seq<SpanV>>::empty());
    while j < item.children.len()
        invariant
            j <= item.children@.len(),
            cv == elems_view(item.children@),
            cv.len() == item.children@.len(),
            forall|k: int| 0 <= k < item.children@.len() ==> #[trigger] cv[k] == item.children@[k]@,
            base == lines_view(old(lines)@),
            lines_view(lines@) == base + item_fold(cv.take(j as int), depth as nat, first).0,
            spans_view(pending@) == item_fold(cv.take(j as int), depth as nat, first).1,
        decreases item.children@.len() - j,
    {
        let c = &item.children[j];
        let ghost prev = item_fold(cv.take(j as int), depth as nat, first);
        assert(cv.take(j + 1).drop_last() =~= cv.take(j as int));
        assert(cv.take(j + 1).last() == c@);
        assert(c@.children == elems_view(c.children@));
        assert(c@.attrs == attrs_view(c.attrs@));
        let ghost l0 = lines_view(lines@);
        match c.tag {
            Tag::Paragraph => {
                collect_inline_spans(&c.children, &mut pending, Style::new());
                let p = pending;
                pending = Vec::new();
                let ghost pv = spans_view(p@);
                lines.push(Line::from_spans(p));
                assert(lines_view(lines@) =~= l0.push(pv));
                assert(spans_view(pending@) =~= Seq::<SpanV>::empty());
            },
            Tag::List => {
                if pending.len() > 0 {
                    let p = pending;
                    pending = Vec::new();
                    let ghost pv = spans_view(p@);
                    lines.push(Line::from_spans(p));
                    assert(lines_view(lines@) =~= l0.push(pv));
                } else {
                    assert(spans_view(pending@).len() == 0);
                }
                assert(spans_view(pending@) =~= Seq::<SpanV>::empty());
                let nested_ordered = list_ordered_exec(&c.attrs);
                let nested_start = attr_num_exec(&c.attrs, "start");
                let next = if depth < usize::MAX { depth + 1 } else { depth };
                render_list_items(&c.children, lines, next, nested_ordered, nested_start);
            },
            _ => {},
        }
        j += 1;
        assert(lines_view(lines@) =~= base + item_fold(cv.take(j as int), depth as nat, first).0);
    }
    assert(cv.take(j as int) =~= cv);
    if pending.len() > 0 {
        let ghost l0 = lines_view(lines@);
        let ghost pv = spans_view(pending@);
        lines.push(Line::from_spans(pending));
        assert(lines_view(lines@) =~= l0.push(pv));
    }
    assert(lines_view(lines@) =~= lines_view(old(lines)@) + item_lines(item@, idx as nat, depth as nat, ordered, start as nat));
}

/// The style of a heading of the given level.
pub fn heading_style(level: usize) -> (s: Style)
    ensures
        s == heading_style_spec(level as nat),
{
    if level == 1 {
        Style::new().fg(Color::Cyan).add_modifier(Modifier::bold())
    } else if level == 2 {
        Style::new().fg(Color::Green).add_modifier(Modifier::bold())
    } else if level == 3 {
        Style::new().fg(Color::Yellow).add_modifier(Modifier::bold())
    } else if level == 4 {
        Style::new().fg(Color::Magenta).add_modifier(Modifier::bold())
    } else {
        Style::new().add_modifier(Modifier::bold())
    }
}

/// The color of an alert of the given kind.
pub fn alert_color(k: AlertKind) -> (c: Color)
    ensures
        c == alert_color_spec(k),
{
    match k {
        AlertKind::Note => Color::Blue,
        AlertKind::Tip => Color::Green,
        AlertKind::Important => Color::Magenta,
        AlertKind::Warning => Color::Yellow,
        AlertKind::Caution => Color::Red,
    }
}

/// The icon of an alert of the given kind.
pub fn alert_icon(k: AlertKind) -> (s: String)
    ensures
        s@ == alert_icon_spec(k),
{
    match k {
        AlertKind::Note => lit("\u{2139}"),
        AlertKind::Tip => lit("\u{1f4a1}"),
        AlertKind::Important => lit("\u{2757}"),
        AlertKind::Warning => lit("\u{26a0}"),
        AlertKind::Caution => lit("\u{1f534}"),
    }
}

/// The kind of alert that a `type` attribute names.
fn alert_kind_exec(t: &str) -> (k: AlertKind)
    ensures
        k == alert_kind_of(t@),
{
    if crate::text::strings_equal(t, "tip") {
        AlertKind::Tip
    } else if crate::text::strings_equal(t, "important") {
        AlertKind::Important
    } else if crate::text::strings_equal(t, "warning") {
        AlertKind::Warning
    } else if crate::text::strings_equal(t, "caution") {
        AlertKind::Caution
    } else {
        AlertKind::Note
    }
}

/// The default title of an alert of the given kind.
fn alert_default_title_exec(k: AlertKind) -> (s: String)
    ensures
        s@ == alert_default_title(k),
{
    match k {
        AlertKind::Note => lit("Note"),
        AlertKind::Tip => lit("Tip"),
        AlertKind::Important => lit("Important"),
        AlertKind::Warning => lit("Warning"),
        AlertKind::Caution => lit("Caution"),
    }
}

/// Appends `inner` behind a bar of the given color, recoloring its spans.
fn push_quoted(inner: Vec<Line>, color: Color, lines: &mut Vec<Line>)
    ensures
        lines_view(final(lines)@) == lines_view(old(lines)@) + quoted(lines_view(inner@), color),
{
    let ghost iv = lines_view(inner@);
    let ghost base = lines_view(lines@);
    let mut i: usize = 0;
    assert(lines_view(lines@) =~= base + quoted(iv.take(0), color));
    while i < inner.len()
        invariant
            i <= inner@.len(),
            iv == lines_view(inner@),
            base == lines_view(old(lines)@),
            lines_view(lines@) == base + quoted(iv.take(i as int), color),
        decreases inner@.len() - i,
    {
        let line = &inner[i];
        let ghost lv = line@;
        let mut spans: Vec<Span> = Vec::new();
        push_span(&mut spans, lit("\u{2502} "), Style::new().fg(color));
        let mut k: usize = 0;
        while k < line.spans.len()
            invariant
                k <= line.spans@.len(),
                lv == spans_view(line.spans@),
                spans_view(spans@) == seq![span("\u{2502} "@, fg(color))] + lv.take(k as int).map_values(
                    |s: SpanV| span(s.content, s.style.with_fg(color)),
                ),
            decreases line.spans@.len() - k,
        {
            let sp = &line.spans[k];
            push_span(&mut spans, sp.content.clone(), sp.style.fg(color));
            k += 1;
            assert(spans_view(spans@) =~= seq![span("\u{2502} "@, fg(color))] + lv.take(k as int).map_values(
                |s: SpanV| span(s.content, s.style.with_fg(color)),
            ));
        }
        assert(lv.take(k as int) =~= lv);
        let ghost before = lines_view(lines@);
        let ghost sv = spans_view(spans@);
        lines.push(Line::from_spans(spans));
        assert(lines_view(lines@) =~= before.push(sv));
        assert(iv[i as int] == lv);
        assert(iv.take(i + 1) =~= iv.take(i as int).push(lv));
        i += 1;
        assert(lines_view(lines@) =~= base + quoted(iv.take(i as int), color));
    }
    assert(iv.take(i as int) =~= iv);
}

/// Appends one line of one span.
fn push_line(lines: &mut Vec<Line>, content: String, style: Style)
    ensures
        lines_view(final(lines)@) == lines_view(old(lines)@).push(seq![span(content@, style)]),
{
    let ghost before = lines_view(lines@);
    lines.push(Line::from_span(Span::styled(content, style)));
    assert(lines_view(lines@) =~= before.push(seq![span(content@, style)]));
}

/// Appends an empty line.
fn push_empty(lines: &mut Vec<Line>)
    ensures
        lines_view(final(lines)@) == lines_view(old(lines)@).push(Seq::empty()),
{
    let ghost before = lines_view(lines@);
    lines.push(Line::empty());
    assert(lines_view(lines@) =~= before.push(Seq::empty()));
}

/// Appends the lines of a code block.
fn render_code_block(h: &Highlighter, e: &Elem, lines: &mut Vec<Line>)
    requires
        h.has_theme(theme_name()),
        e.tag == Tag::CodeBlock,
    ensures
        lines_view(final(lines)@) == lines_view(old(lines)@) + code_block_lines(
            trim_seq(attr_text(e@.attrs, "info"@)),
            e@.literal,
        ),
{
    assert(e@.attrs == attrs_view(e.attrs@));
    let info = attr_text_exec(&e.attrs, "info");
    let info_chars = chars_of(info.as_str());
    let lang_chars = trim_chars(&info_chars);
    let lang = string_of(&lang_chars);
    let highlighted = highlight_code(h, e.literal.as_str(), lang.as_str());
    let label = if lang.as_str().is_empty() { lit("code") } else { lang };
    assert(label@ == code_label(trim_seq(attr_text(e@.attrs, "info"@))));
    let blen = utf8_len_capped(label.as_str(), 46);
    let top_pad: usize = 46 - blen;
    let mut top = lit("\u{250c}\u{2500} ");
    top.append(label.as_str());
    top.append(" ");
    let bar = repeat_str("\u{2500}", top_pad);
    top.append(bar.as_str());
    let ghost base = lines_view(lines@);
    let ghost label_v = code_label(trim_seq(attr_text(e@.attrs, "info"@)));
    assert(top@ =~= "\u{250c}\u{2500} "@ + label_v + " "@ + repeat_seq("\u{2500}"@, sat_sub(50, utf8_len(label_v) + 4)));
    push_line(lines, top, Style::new().fg(Color::DarkGray));
    let ghost hv = lines_view(highlighted@);
    let ghost mid = lines_view(lines@);
    let mut highlighted = highlighted;
    lines.append(&mut highlighted);
    assert(lines_view(lines@) =~= mid + hv);
    let mut bottom = lit("\u{2514}");
    let bar2 = repeat_str("\u{2500}", 49);
    bottom.append(bar2.as_str());
    push_line(lines, bottom, Style::new().fg(Color::DarkGray));
    push_empty(lines);
    assert(lines_view(lines@) =~= base + code_block_lines(
        trim_seq(attr_text(e@.attrs, "info"@)),
        e@.literal,
    ));
}

/// Appends the lines of the block children `children` at list depth `depth`.
fn walk_blocks(h: &Highlighter, children: &Vec<Elem>, lines: &mut Vec<Line>, depth: usize)
    requires
        h.has_theme(theme_name()),
    ensures
        lines_view(final(lines)@) == lines_view(old(lines)@) + blocks_lines(
            elems_view(children@),
            depth as nat,
        ),
    decreases children,
{
    let ghost cv = elems_view(children@);
    proof {
        lemma_elems_view(children@);
    }
    let ghost base = lines_view(lines@);
    let mut i: usize = 0;
    assert(lines_view(lines@) =~= base + blocks_lines(cv.take(0), depth as nat));
    while i < children.len()
        invariant
            h.has_theme(theme_name()),
            i <= children@.len(),
            cv == elems_view(children@),
            cv.len() == children@.len(),
            forall|k: int| 0 <= k < children@.len() ==> #[trigger] cv[k] == children@[k]@,
            base == lines_view(old(lines)@),
            lines_view(lines@) == base + blocks_lines(cv.take(i as int), depth as nat),
        decreases children@.len() - i,
    {
        render_block(h, &children[i], lines, depth);
        assert(cv.take(i + 1).drop_last() =~= cv.take(i as int));
        assert(cv.take(i + 1).last() == children@[i as int]@);
        i += 1;
        assert(lines_view(lines@) =~= base + blocks_lines(cv.take(i as int), depth as nat));
    }
    assert(cv.take(i as int) =~= cv);
}

/// Appends the lines of one block at list depth `depth`.
fn render_block(h: &Highlighter, e: &Elem, lines: &mut Vec<Line>, depth: usize)
    requires
        h.has_theme(theme_name()),
    ensures
        lines_view(final(lines)@) == lines_view(old(lines)@) + block_lines(e@, depth as nat),
    decreases e,
{
    let ghost ev = e@;
    assert(ev.children == elems_view(e.children@));
    assert(ev.attrs == attrs_view(e.attrs@));
    let ghost base = lines_view(lines@);
    match e.tag {
        Tag::Heading => {
            let level = attr_num_exec(&e.attrs, "level");
            let style = heading_style(level);
            let mut prefix = repeat_str("#", level);
            prefix.append(" ");
            let mut spans: Vec<Span> = Vec::new();
            assert(spans_view(spans@) =~= Seq::<SpanV>::empty());
            push_span(&mut spans, prefix, style);
            collect_inline_spans(&e.children, &mut spans, style);
            let ghost sv = spans_view(spans@);
            assert(sv =~= seq![span(repeat_seq("#"@, level as nat) + " "@, style)] + inline_spans(ev.children, style));
            lines.push(Line::from_spans(spans));
            assert(lines_view(lines@) =~= base.push(sv));
            push_empty(lines);
            assert(lines_view(lines@) =~= base + block_lines(ev, depth as nat));
        },
        Tag::Paragraph => {
            let mut spans: Vec<Span> = Vec::new();
            if depth > 0 {
                push_span(&mut spans, repeat_str("  ", depth), Style::new());
            }
            assert(spans_view(spans@) =~= para_indent(depth as nat));
            collect_inline_spans(&e.children, &mut spans, Style::new());
            let ghost sv = spans_view(spans@);
            lines.push(Line::from_spans(spans));
            push_empty(lines);
            assert(lines_view(lines@) =~= base + block_lines(ev, depth as nat));
        },
        Tag::CodeBlock => {
            render_code_block(h, e, lines);
        },
        Tag::List => {
            let ordered = list_ordered_exec(&e.attrs);
            let start = attr_num_exec(&e.attrs, "start");
            render_list_items(&e.children, lines, depth, ordered, start);
            push_empty(lines);
            assert(lines_view(lines@) =~= base + block_lines(ev, depth as nat));
        },
        Tag::Alert => {
            let t = attr_text_exec(&e.attrs, "type");
            let kind = alert_kind_exec(t.as_str());
            let title = match attr_value(&e.attrs, "title") {
                Some(v) => v,
                None => alert_default_title_exec(kind),
            };
            let color = alert_color(kind);
            let mut head = alert_icon(kind);
            head.append(" ");
            head.append(title.as_str());
            push_line(lines, head, Style::new().fg(color).add_modifier(Modifier::bold()));
            let mut inner: Vec<Line> = Vec::new();
            assert(lines_view(inner@) =~= Seq::<Seq<SpanV>>::empty());
            walk_blocks(h, &e.children, &mut inner, depth);
            assert(lines_view(inner@) =~= blocks_lines(ev.children, depth as nat));
            push_quoted(inner, color, lines);
            push_empty(lines);
            assert(lines_view(lines@) =~= base + block_lines(ev, depth as nat));
        },
        Tag::BlockQuote => {
            let mut inner: Vec<Line> = Vec::new();
            assert(lines_view(inner@) =~= Seq::<Seq<SpanV>>::empty());
            walk_blocks(h, &e.children, &mut inner, depth);
            assert(lines_view(inner@) =~= blocks_lines(ev.children, depth as nat));
            push_quoted(inner, Color::DarkGray, lines);
            push_empty(lines);
            assert(lines_view(lines@) =~= base + block_lines(ev, depth as nat));
        },
        Tag::ThematicBreak => {
            push_line(lines, repeat_str("\u{2500}", 60), Style::new().fg(Color::DarkGray));
            push_empty(lines);
            assert(lines_view(lines@) =~= base + block_lines(ev, depth as nat));
        },
        Tag::Table => {
            render_table(&e.children, lines);
            push_empty(lines);
            assert(lines_view(lines@) =~= base + block_lines(ev, depth as nat));
        },
        Tag::FrontMatter => {
            assert(lines_view(lines@) =~= base + block_lines(ev, depth as nat));
        },
        Tag::HtmlBlock => {
            assert(lines_view(lines@) =~= base + block_lines(ev, depth as nat));
        },
        _ => {
            walk_blocks(h, &e.children, lines, depth);
        },
    }
}

/// Renders the document whose XML form is `xml` into styled lines (none
/// if `xml` is not such a form).
pub fn render_xml(h: &Highlighter, xml: &str) -> (lines: Vec<Line>)
    requires
        h.has_theme(theme_name()),
    ensures
        lines_view(lines@) == rendered_xml(xml@),
{
    let mut lines: Vec<Line> = Vec::new();
    assert(lines_view(lines@) =~= Seq::<Seq<SpanV>>::empty());
    match decode_document(xml) {
        Some(doc) => {
            walk_blocks(h, &doc.children, &mut lines, 0);
            assert(doc@.children == elems_view(doc.children@));
            assert(lines_view(lines@) =~= rendered_xml(xml@));
        },
        None => {},
    }
    lines
}

/// Parses a Markdown source and renders it into styled lines.
pub fn render_markdown(source: &str) -> (lines: Vec<Line>)
    ensures
        lines_view(lines@) == rendered(source@),
        exists|d: ElemV|
            wf_elem(d) && #[trigger] print_document(d) == comrak_xml(source@, gfm_options())
                && lines_view(lines@) == blocks_lines(d.children, 0),
{
    let opts = comrak_options();
    let xml = markdown_to_xml(source, &opts);
    let h = Highlighter::new();
    let lines = render_xml(&h, xml.as_str());
    proof {
        let d = choose|d: ElemV| wf_elem(d) && #[trigger] print_document(d) == xml@;
        lemma_read_back(d);
        assert(wf_elem(d) && print_document(d) == comrak_xml(source@, gfm_options())
            && lines_view(lines@) == blocks_lines(d.children, 0));
    }
    lines
}

} // verus!
