//! Syntax highlighting of code blocks with syntect.

use vstd::prelude::*;
use syntect::highlighting::ThemeSet;
use syntect::parsing::SyntaxSet;
use crate::style::{Color, Line, Span, SpanV, Style, lines_view, spans_view};
use crate::text::{chars_of, string_of};

verus! {

#[verifier::external_type_specification]
#[verifier::external_body]
pub struct ExSyntaxSet(SyntaxSet);

#[verifier::external_type_specification]
#[verifier::external_body]
pub struct ExThemeSet(ThemeSet);

/// The syntax definitions and color themes used to highlight code blocks.
pub struct Highlighter {
    syntaxes: SyntaxSet,
    themes: ThemeSet,
}

/// `two_face::syntax::extra_newlines`: the syntax definitions bundled with
/// two-face (those of bat), for lines that keep their newline.
#[verifier::external_body]
fn load_syntaxes() -> SyntaxSet {
    two_face::syntax::extra_newlines()
}

/// The names of the themes a theme set holds (the keys of its `themes` map).
pub uninterp spec fn theme_names(t: ThemeSet) -> Set<Seq<char>>;

/// The themes syntect bundles, by name.
pub open spec fn default_theme_names() -> Set<Seq<char>> {
    set![
        "base16-ocean.dark"@,
        "base16-eighties.dark"@,
        "base16-mocha.dark"@,
        "base16-ocean.light"@,
        "InspiredGitHub"@,
        "Solarized (dark)"@,
        "Solarized (light)"@,
    ]
}

/// `syntect::highlighting::ThemeSet::load_defaults`: syntect's bundled themes,
/// which its documentation lists by name; what each theme holds is not stated.
#[verifier::external_body]
fn load_themes() -> (t: ThemeSet)
    ensures
        default_theme_names().subset_of(theme_names(t)),
{
    ThemeSet::load_defaults()
}

impl Highlighter {
    /// Whether the highlighter holds a theme of the given name.
    pub closed spec fn has_theme(&self, name: Seq<char>) -> bool {
        theme_names(self.themes).contains(name)
    }

    /// Loads the bundled syntax definitions and themes: every bundled theme
    /// can be asked for by its name.
    pub fn new() -> (h: Highlighter)
        ensures
            forall|name: Seq<char>| default_theme_names().contains(name) ==> h.has_theme(name),
    {
        Highlighter { syntaxes: load_syntaxes(), themes: load_themes() }
    }
}

/// One highlighted piece of a line: its foreground color and its text.
pub struct Fragment {
    pub r: u8,
    pub g: u8,
    pub b: u8,
    pub text: String,
}

pub open spec fn fragments_view(f: Seq<Fragment>) -> Seq<(u8, u8, u8, Seq<char>)> {
    f.map_values(|x: Fragment| (x.r, x.g, x.b, x.text@))
}

pub open spec fn highlighted_view(v: Seq<Option<Vec<Fragment>>>) -> Seq<
    Option<Seq<(u8, u8, u8, Seq<char>)>>,
> {
    v.map_values(
        |o: Option<Vec<Fragment>>|
            match o {
                Some(f) => Some(fragments_view(f@)),
                None => None,
            },
    )
}

/// The theme code blocks are highlighted with.
pub open spec fn theme_name() -> Seq<char> {
    "base16-ocean.dark"@
}

/// Whether `SyntaxSet::find_syntax_by_token` finds a syntax for `token`
/// among the bundled definitions (by file extension, then by name ignoring
/// ASCII case).
pub uninterp spec fn token_has_syntax(token: Seq<char>) -> bool;

/// `syntect::parsing::SyntaxSet::find_syntax_by_token` on the bundled
/// definitions: whether it finds a syntax. The highlighter always holds the
/// same bundled definitions, so the result is stated as the name
/// `token_has_syntax` of the token.
#[verifier::external_body]
fn find_syntax(h: &Highlighter, token: &str) -> (r: bool)
    ensures
        r == token_has_syntax(token@),
{
    h.syntaxes.find_syntax_by_token(token).is_some()
}

/// What syntect gives for `code`, split into lines that keep their newline,
/// highlighted with the bundled syntax found for `token` (the plain-text
/// syntax for `None`) and the theme named `theme`: per line, the fragments
/// with their foreground colors, or `None` where highlighting the line failed.
pub uninterp spec fn syntect_lines(
    code: Seq<char>,
    token: Option<Seq<char>>,
    theme: Seq<char>,
) -> Seq<Option<Seq<(u8, u8, u8, Seq<char>)>>>;

/// `syntect::easy::HighlightLines::highlight_line` over
/// `syntect::util::LinesWithEndings`, with the syntax that
/// `SyntaxSet::find_syntax_by_token` finds for the token (one it finds, as
/// the caller has asked `find_syntax`), or `SyntaxSet::find_syntax_plain_text`
/// for `None`. The highlighter always holds the same bundled definitions, so
/// the result is stated as the name `syntect_lines` of the code, the token
/// and the theme name. The theme must be one the highlighter holds, else the
/// lookup panics. The bundled definitions hold a plain-text syntax, so
/// `find_syntax_plain_text` does not panic; no clause speaks of the
/// definitions, so nothing of it is stated.
#[verifier::external_body]
fn highlight_with_syntect(
    h: &Highlighter,
    code: &str,
    token: Option<&str>,
    theme: &str,
) -> (r: Vec<Option<Vec<Fragment>>>)
    requires
        h.has_theme(theme@),
        match token {
            Some(t) => token_has_syntax(t@),
            None => true,
        },
    ensures
        highlighted_view(r@) == syntect_lines(
            code@,
            match token {
                Some(t) => Some(t@),
                None => None,
            },
            theme@,
        ),
{
    let ss = &h.syntaxes;
    let found = match token {
        Some(t) => ss.find_syntax_by_token(t).unwrap(),
        None => ss.find_syntax_plain_text(),
    };
    let mut hl = syntect::easy::HighlightLines::new(found, &h.themes.themes[theme]);
    syntect::util::LinesWithEndings::from(code)
        .map(|line| hl.highlight_line(line, ss).ok().map(|ranges| ranges.into_iter()
            .map(|(st, t)| Fragment { r: st.foreground.r, g: st.foreground.g, b: st.foreground.b, text: t.to_string() })
            .collect()))
        .collect()
}

/// `t` without its trailing newlines (`str::trim_end_matches('\n')`).
pub open spec fn trim_newlines(t: Seq<char>) -> Seq<char>
    decreases t.len(),
{
    if t.len() > 0 && t.last() == '\n' {
        trim_newlines(t.drop_last())
    } else {
        t
    }
}

/// The span of one highlighted fragment.
pub open spec fn fragment_span(f: (u8, u8, u8, Seq<char>)) -> SpanV {
    SpanV { content: trim_newlines(f.3), style: Style::plain().with_fg(Color::Rgb(f.0, f.1, f.2)) }
}

/// The rendered lines of highlighted code: one line per line that was
/// highlighted, lines that failed are left out.
pub open spec fn code_lines(raw: Seq<Option<Seq<(u8, u8, u8, Seq<char>)>>>) -> Seq<Seq<SpanV>>
    decreases raw.len(),
{
    if raw.len() == 0 {
        Seq::empty()
    } else {
        let prev = code_lines(raw.drop_last());
        match raw.last() {
            Some(f) => prev.push(f.map_values(|x: (u8, u8, u8, Seq<char>)| fragment_span(x))),
            None => prev,
        }
    }
}

/// The syntax a code block is highlighted with: the one its language names,
/// or plain text (`None`) when it names none or an unknown one.
pub open spec fn code_syntax(lang: Seq<char>) -> Option<Seq<char>> {
    if lang.len() > 0 && token_has_syntax(lang) {
        Some(lang)
    } else {
        None
    }
}

/// The highlighted lines of a code block.
pub open spec fn highlighted_code(code: Seq<char>, lang: Seq<char>) -> Seq<Seq<SpanV>> {
    code_lines(syntect_lines(code, code_syntax(lang), theme_name()))
}

fn trim_newlines_exec(t: &String) -> (r: String)
    ensures
        r@ == trim_newlines(t@),
{
    let v = chars_of(t.as_str());
    let mut n = v.len();
    assert(v@.take(n as int) =~= v@);
    while n > 0 && v[n - 1] == '\n'
        invariant
            n <= v@.len(),
            trim_newlines(v@) == trim_newlines(v@.take(n as int)),
        decreases n,
    {
        assert(v@.take(n as int).drop_last() =~= v@.take(n - 1));
        n -= 1;
    }
    assert(v@.take(n as int) =~= v@.take(n as int));
    let mut w: Vec<char> = Vec::new();
    let mut k: usize = 0;
    while k < n
        invariant
            k <= n <= v@.len(),
            w@ == v@.take(k as int),
        decreases n - k,
    {
        w.push(v[k]);
        k += 1;
        assert(w@ =~= v@.take(k as int));
    }
    let r = string_of(&w);
    proof {
        if n > 0 {
            assert(v@.take(n as int).last() == v@[n - 1]);
        }
    }
    r
}

/// The rendered lines of syntect's output: one line per highlighted line,
/// each fragment a span in its foreground color with trailing newlines
/// removed; lines syntect failed on are left out.
pub fn lines_of_fragments(raw: &Vec<Option<Vec<Fragment>>>) -> (r: Vec<Line>)
    ensures
        lines_view(r@) == code_lines(highlighted_view(raw@)),
{
    let ghost rv = highlighted_view(raw@);
    let mut out: Vec<Line> = Vec::new();
    let mut i: usize = 0;
    while i < raw.len()
        invariant
            i <= raw@.len(),
            rv == highlighted_view(raw@),
            lines_view(out@) == code_lines(rv.take(i as int)),
        decreases raw@.len() - i,
    {
        assert(rv.take(i + 1).drop_last() =~= rv.take(i as int));
        match &raw[i] {
            Some(frags) => {
                let mut spans: Vec<Span> = Vec::new();
                let mut k: usize = 0;
                while k < frags.len()
                    invariant
                        k <= frags@.len(),
                        spans_view(spans@) == fragments_view(frags@).take(k as int).map_values(
                            |x: (u8, u8, u8, Seq<char>)| fragment_span(x),
                        ),
                    decreases frags@.len() - k,
                {
                    let f = &frags[k];
                    let text = trim_newlines_exec(&f.text);
                    let ghost fv = fragments_view(frags@);
                    assert(fv[k as int] == (f.r, f.g, f.b, f.text@));
                    let ghost prev = spans_view(spans@);
                    spans.push(Span::styled(text, Style::new().fg(Color::Rgb(f.r, f.g, f.b))));
                    assert(spans_view(spans@) =~= prev.push(fragment_span(fv[k as int])));
                    assert(fv.take(k + 1) =~= fv.take(k as int).push(fv[k as int]));
                    k += 1;
                    assert(spans_view(spans@) =~= fragments_view(frags@).take(k as int).map_values(
                        |x: (u8, u8, u8, Seq<char>)| fragment_span(x),
                    ));
                }
                assert(fragments_view(frags@).take(k as int) =~= fragments_view(frags@));
                let ghost prev = lines_view(out@);
                out.push(Line::from_spans(spans));
                assert(lines_view(out@) =~= prev.push(lines_view(out@).last()));
            },
            None => {},
        }
        i += 1;
    }
    assert(rv.take(i as int) =~= rv);
    out
}

/// Highlights a code block with the syntax its language names (plain text
/// when it names none or an unknown one) and the `base16-ocean.dark` theme.
pub fn highlight_code(h: &Highlighter, code: &str, lang: &str) -> (r: Vec<Line>)
    requires
        h.has_theme(theme_name()),
    ensures
        lines_view(r@) == highlighted_code(code@, lang@),
{
    let token = if !lang.is_empty() && find_syntax(h, lang) { Some(lang) } else { None };
    let raw = highlight_with_syntect(h, code, token, "base16-ocean.dark");
    lines_of_fragments(&raw)
}

} // verus!
