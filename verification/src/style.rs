//! Styled text: colors, modifiers, styles, spans and lines.

use vstd::prelude::*;

verus! {

/// A terminal color.
#[derive(Clone, Copy, Debug, PartialEq, Eq, Structural)]
pub enum Color {
    Black,
    Red,
    Green,
    Yellow,
    Blue,
    Magenta,
    Cyan,
    White,
    DarkGray,
    Rgb(u8, u8, u8),
}

/// The set of text modifiers a style adds.
#[derive(Clone, Copy, Debug, PartialEq, Eq, Structural)]
pub struct Modifier {
    pub bold: bool,
    pub dim: bool,
    pub italic: bool,
    pub underlined: bool,
    pub crossed_out: bool,
}

impl Modifier {
    pub open spec fn spec_none() -> Modifier {
        Modifier { bold: false, dim: false, italic: false, underlined: false, crossed_out: false }
    }

    pub open spec fn union(self, other: Modifier) -> Modifier {
        Modifier {
            bold: self.bold || other.bold,
            dim: self.dim || other.dim,
            italic: self.italic || other.italic,
            underlined: self.underlined || other.underlined,
            crossed_out: self.crossed_out || other.crossed_out,
        }
    }

    /// No modifier.
    pub fn none() -> (m: Modifier)
        ensures
            m == Modifier::spec_none(),
    {
        Modifier { bold: false, dim: false, italic: false, underlined: false, crossed_out: false }
    }

    /// Bold only.
    pub fn bold() -> (m: Modifier)
        ensures
            m == (Modifier { bold: true, ..Modifier::spec_none() }),
    {
        Modifier { bold: true, dim: false, italic: false, underlined: false, crossed_out: false }
    }

    /// Dim only.
    pub fn dim() -> (m: Modifier)
        ensures
            m == (Modifier { dim: true, ..Modifier::spec_none() }),
    {
        Modifier { bold: false, dim: true, italic: false, underlined: false, crossed_out: false }
    }

    /// Italic only.
    pub fn italic() -> (m: Modifier)
        ensures
            m == (Modifier { italic: true, ..Modifier::spec_none() }),
    {
        Modifier { bold: false, dim: false, italic: true, underlined: false, crossed_out: false }
    }

    /// Underlined only.
    pub fn underlined() -> (m: Modifier)
        ensures
            m == (Modifier { underlined: true, ..Modifier::spec_none() }),
    {
        Modifier { bold: false, dim: false, italic: false, underlined: true, crossed_out: false }
    }

    /// Crossed out only.
    pub fn crossed_out() -> (m: Modifier)
        ensures
            m == (Modifier { crossed_out: true, ..Modifier::spec_none() }),
    {
        Modifier { bold: false, dim: false, italic: false, underlined: false, crossed_out: true }
    }
}

/// A text style: optional foreground and background colors and added modifiers.
#[derive(Clone, Copy, Debug, PartialEq, Eq, Structural)]
pub struct Style {
    pub fg: Option<Color>,
    pub bg: Option<Color>,
    pub add_modifier: Modifier,
}

impl Style {
    /// The style that sets nothing.
    pub open spec fn plain() -> Style {
        Style { fg: None, bg: None, add_modifier: Modifier::spec_none() }
    }

    pub open spec fn with_fg(self, color: Color) -> Style {
        Style { fg: Some(color), ..self }
    }

    pub open spec fn with_bg(self, color: Color) -> Style {
        Style { bg: Some(color), ..self }
    }

    pub open spec fn with_modifier(self, m: Modifier) -> Style {
        Style { add_modifier: self.add_modifier.union(m), ..self }
    }

    /// The style that sets nothing.
    pub fn new() -> (s: Style)
        ensures
            s == Style::plain(),
    {
        Style { fg: None, bg: None, add_modifier: Modifier::none() }
    }

    /// This style with the given foreground color.
    pub fn fg(self, color: Color) -> (s: Style)
        ensures
            s == self.with_fg(color),
    {
        Style { fg: Some(color), ..self }
    }

    /// This style with the given background color.
    pub fn bg(self, color: Color) -> (s: Style)
        ensures
            s == self.with_bg(color),
    {
        Style { bg: Some(color), ..self }
    }

    /// This style with the given modifiers added.
    pub fn add_modifier(self, m: Modifier) -> (s: Style)
        ensures
            s == self.with_modifier(m),
    {
        let a = self.add_modifier;
        let u = Modifier {
            bold: a.bold || m.bold,
            dim: a.dim || m.dim,
            italic: a.italic || m.italic,
            underlined: a.underlined || m.underlined,
            crossed_out: a.crossed_out || m.crossed_out,
        };
        Style { add_modifier: u, ..self }
    }
}

impl Default for Style {
    fn default() -> (s: Style)
        ensures
            s == Style::plain(),
    {
        Style::new()
    }
}

/// What a span is: its text and its style.
pub struct SpanV {
    pub content: Seq<char>,
    pub style: Style,
}

/// A piece of text with one style.
#[derive(Clone, Debug)]
pub struct Span {
    pub content: String,
    pub style: Style,
}

impl View for Span {
    type V = SpanV;

    open spec fn view(&self) -> SpanV {
        SpanV { content: self.content@, style: self.style }
    }
}

impl Span {
    /// A span of the given text and style.
    pub fn styled(content: String, style: Style) -> (s: Span)
        ensures
            s@ == (SpanV { content: content@, style }),
    {
        Span { content, style }
    }

    /// A span of the given text with the plain style.
    pub fn raw(content: String) -> (s: Span)
        ensures
            s@ == (SpanV { content: content@, style: Style::plain() }),
    {
        Span { content, style: Style::new() }
    }
}

/// One rendered line: a sequence of spans.
#[derive(Clone, Debug)]
pub struct Line {
    pub spans: Vec<Span>,
}

pub open spec fn spans_view(s: Seq<Span>) -> Seq<SpanV> {
    s.map_values(|sp: Span| sp@)
}

impl View for Line {
    type V = Seq<SpanV>;

    open spec fn view(&self) -> Seq<SpanV> {
        spans_view(self.spans@)
    }
}

pub open spec fn lines_view(s: Seq<Line>) -> Seq<Seq<SpanV>> {
    s.map_values(|l: Line| l@)
}

impl Line {
    /// The line made of the given spans.
    pub fn from_spans(spans: Vec<Span>) -> (l: Line)
        ensures
            l@ == spans_view(spans@),
    {
        Line { spans }
    }

    /// The line with no span.
    pub fn empty() -> (l: Line)
        ensures
            l@ == Seq::<SpanV>::empty(),
    {
        let l = Line { spans: Vec::new() };
        assert(l@ =~= Seq::<SpanV>::empty());
        l
    }

    /// The line made of one span.
    pub fn from_span(span: Span) -> (l: Line)
        ensures
            l@ == seq![span@],
    {
        let mut v = Vec::new();
        v.push(span);
        let l = Line { spans: v };
        assert(l@ =~= seq![span@]);
        l
    }
}

} // verus!
