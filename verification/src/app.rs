//! The pager: scrolling, incremental search, line jumps and the status bar.

use vstd::prelude::*;
use vstd::string::StringExecFns;
use crate::render::spans_text;
use crate::style::{Color, Line, Span, SpanV, Style, lines_view, spans_view};
use crate::text::{
    chars_of, contains_seq, decimal, display_width, push_decimal, repeat_seq, repeat_str, text_width, contains_chars, find_from, first_occurrence, lemma_first_occurrence_found,
    lowercase, occurs_at, parse_usize, parse_usize_spec, string_of, string_of_range, to_lowercase,
};

verus! {

/// What the pager is doing with keys.
#[derive(Clone, Copy, Debug, PartialEq, Eq, Structural)]
pub enum Mode {
    /// Scrolling.
    Normal,
    /// Typing a search query (after `/`).
    Search,
    /// Typing a line number (after `:`).
    Command,
}

/// The keys the pager tells apart.
#[derive(Clone, Copy, Debug, PartialEq, Eq, Structural)]
pub enum KeyCode {
    Char(char),
    Up,
    Down,
    PageUp,
    PageDown,
    Home,
    End,
    Enter,
    Esc,
    Backspace,
    Other,
}

/// A key press: the key and whether Control was held.
#[derive(Clone, Copy, Debug, PartialEq, Eq, Structural)]
pub struct KeyInput {
    pub code: KeyCode,
    pub ctrl: bool,
}

/// The largest scroll offset a viewport is ever asked for.
pub const SCROLL_LIMIT: usize = 65535;

/// The state of the pager.
pub struct App {
    /// The rendered lines.
    lines: Vec<Line>,
    /// The source's name, shown in the status bar.
    filename: String,
    /// The first line shown.
    scroll: usize,
    /// The number of lines the viewport shows.
    viewport_height: usize,
    mode: Mode,
    /// The query being typed.
    search_input: Vec<char>,
    /// The last query searched for.
    search_query: Vec<char>,
    /// The lines that hold the query, in order.
    search_matches: Vec<usize>,
    /// The current match.
    search_cursor: usize,
    /// The line number being typed.
    command_input: Vec<char>,
    should_quit: bool,
}

/// What the pager's state is.
#[verifier::ext_equal]
pub struct AppV {
    pub lines: Seq<Seq<SpanV>>,
    pub filename: Seq<char>,
    pub scroll: nat,
    pub viewport_height: nat,
    pub mode: Mode,
    pub search_input: Seq<char>,
    pub search_query: Seq<char>,
    pub search_matches: Seq<usize>,
    pub search_cursor: nat,
    pub command_input: Seq<char>,
    pub should_quit: bool,
}

impl View for App {
    type V = AppV;

    closed spec fn view(&self) -> AppV {
        AppV {
            lines: lines_view(self.lines@),
            filename: self.filename@,
            scroll: self.scroll as nat,
            viewport_height: self.viewport_height as nat,
            mode: self.mode,
            search_input: self.search_input@,
            search_query: self.search_query@,
            search_matches: self.search_matches@,
            search_cursor: self.search_cursor as nat,
            command_input: self.command_input@,
            should_quit: self.should_quit,
        }
    }
}

/// A pager over the given lines: at the top, in normal mode, with a viewport
/// of 24 lines and no search.
pub open spec fn initial(lines: Seq<Seq<SpanV>>, filename: Seq<char>) -> AppV {
    AppV {
        lines,
        filename,
        scroll: 0,
        viewport_height: 24,
        mode: Mode::Normal,
        search_input: Seq::empty(),
        search_query: Seq::empty(),
        search_matches: Seq::empty(),
        search_cursor: 0,
        command_input: Seq::empty(),
        should_quit: false,
    }
}

pub open spec fn min(a: nat, b: nat) -> nat {
    if a <= b { a } else { b }
}

pub open spec fn sat_sub(a: nat, b: nat) -> nat {
    if a >= b { (a - b) as nat } else { 0 }
}

/// The largest scroll offset: the last screenful starts there.
pub open spec fn max_scroll(v: AppV) -> nat {
    min(sat_sub(v.lines.len(), v.viewport_height), SCROLL_LIMIT as nat)
}

/// How far a page scrolls: two lines less than the viewport, at least one.
pub open spec fn page_size(v: AppV) -> nat {
    let p = sat_sub(v.viewport_height, 2);
    if p >= 1 { p } else { 1 }
}

/// The scroll offset after scrolling by `delta` lines, kept within 0 and the
/// largest scroll offset.
pub open spec fn scrolled(v: AppV, delta: int) -> nat {
    let moved = v.scroll + delta;
    min(if moved >= 0 { moved as nat } else { 0 }, max_scroll(v))
}

/// How far down the document the view is, in percent.
pub open spec fn scroll_percent(v: AppV) -> nat {
    let m = max_scroll(v);
    if m == 0 { 100 } else { (v.scroll * 100) / m }
}

/// The text of a line: its spans' texts, one after another.
pub open spec fn line_text(l: Seq<SpanV>) -> Seq<char> {
    spans_text(l)
}

/// Whether line `l` holds the query `q`, ignoring case.
pub open spec fn line_matches(l: Seq<SpanV>, q: Seq<char>) -> bool {
    contains_seq(lowercase(line_text(l)), lowercase(q))
}

/// The indices, in order, of the first `n` lines that hold the query `q`.
pub open spec fn matches_upto(lines: Seq<Seq<SpanV>>, q: Seq<char>, n: nat) -> Seq<usize>
    decreases n,
{
    if n == 0 {
        Seq::empty()
    } else {
        let prev = matches_upto(lines, q, (n - 1) as nat);
        if line_matches(lines[n - 1], q) { prev.push((n - 1) as usize) } else { prev }
    }
}

/// The indices of the lines that hold the query `q` (none for the empty query).
pub open spec fn search_results(lines: Seq<Seq<SpanV>>, q: Seq<char>) -> Seq<usize> {
    if q.len() == 0 { Seq::empty() } else { matches_upto(lines, q, lines.len()) }
}

/// The state after searching for the query: the matching lines and the first
/// of them selected.
pub open spec fn searched(v: AppV) -> AppV {
    AppV { search_matches: search_results(v.lines, v.search_query), search_cursor: 0, ..v }
}

/// The state after selecting the next match (wrapping around).
pub open spec fn next_match(v: AppV) -> AppV {
    if v.search_matches.len() == 0 {
        v
    } else {
        let c = ((v.search_cursor + 1) % v.search_matches.len()) as nat;
        AppV { search_cursor: c, scroll: min(v.search_matches[c as int] as nat, max_scroll(v)), ..v }
    }
}

/// The state after selecting the previous match (wrapping around).
pub open spec fn prev_match(v: AppV) -> AppV {
    if v.search_matches.len() == 0 {
        v
    } else {
        let c = if v.search_cursor == 0 { (v.search_matches.len() - 1) as nat } else { (v.search_cursor - 1) as nat };
        AppV { search_cursor: c, scroll: min(v.search_matches[c as int] as nat, max_scroll(v)), ..v }
    }
}

pub open spec fn with_scroll(v: AppV, s: nat) -> AppV {
    AppV { scroll: s, ..v }
}

/// What a key does in normal mode.
pub open spec fn normal_step(v: AppV, k: KeyInput) -> AppV {
    match k.code {
        KeyCode::Char('q') => AppV { should_quit: true, ..v },
        KeyCode::Char('c') if k.ctrl => AppV { should_quit: true, ..v },
        KeyCode::Char('j') | KeyCode::Down => with_scroll(v, scrolled(v, 1)),
        KeyCode::Char('k') | KeyCode::Up => with_scroll(v, scrolled(v, -1)),
        KeyCode::Char(' ') | KeyCode::Char('f') | KeyCode::PageDown => with_scroll(v, scrolled(v, page_size(v) as int)),
        KeyCode::Char('b') | KeyCode::PageUp => with_scroll(v, scrolled(v, -(page_size(v) as int))),
        KeyCode::Char('d') if k.ctrl => with_scroll(v, scrolled(v, (v.viewport_height / 2) as int)),
        KeyCode::Char('u') if k.ctrl => with_scroll(v, scrolled(v, -((v.viewport_height / 2) as int))),
        KeyCode::Char('g') | KeyCode::Home => with_scroll(v, 0),
        KeyCode::Char('G') | KeyCode::End => with_scroll(v, max_scroll(v)),
        KeyCode::Char('/') => AppV { mode: Mode::Search, search_input: Seq::empty(), ..v },
        KeyCode::Char(':') => AppV { mode: Mode::Command, command_input: Seq::empty(), ..v },
        KeyCode::Char('n') => next_match(v),
        KeyCode::Char('N') => prev_match(v),
        _ => v,
    }
}

/// What a key does while a query is typed.
pub open spec fn search_step(v: AppV, k: KeyInput) -> AppV {
    match k.code {
        KeyCode::Enter => {
            let s = searched(AppV { search_query: v.search_input, ..v });
            let n = AppV { mode: Mode::Normal, ..s };
            if n.search_matches.len() > 0 {
                with_scroll(n, min(n.search_matches[0] as nat, max_scroll(n)))
            } else {
                n
            }
        },
        KeyCode::Esc => AppV { search_input: Seq::empty(), mode: Mode::Normal, ..v },
        KeyCode::Backspace => AppV {
            search_input: if v.search_input.len() > 0 { v.search_input.drop_last() } else { v.search_input },
            ..v
        },
        KeyCode::Char(c) => AppV { search_input: v.search_input.push(c), ..v },
        _ => v,
    }
}

/// What a key does while a line number is typed.
pub open spec fn command_step(v: AppV, k: KeyInput) -> AppV {
    match k.code {
        KeyCode::Enter => {
            let w = AppV { command_input: Seq::empty(), mode: Mode::Normal, ..v };
            match parse_usize_spec(v.command_input) {
                Some(n) => with_scroll(w, min(sat_sub(n as nat, 1), max_scroll(v))),
                None => w,
            }
        },
        KeyCode::Esc => AppV { command_input: Seq::empty(), mode: Mode::Normal, ..v },
        KeyCode::Backspace => AppV {
            command_input: if v.command_input.len() > 0 { v.command_input.drop_last() } else { v.command_input },
            ..v
        },
        KeyCode::Char(c) => if '0' <= c <= '9' { AppV { command_input: v.command_input.push(c), ..v } } else { v },
        _ => v,
    }
}

/// What a key does.
pub open spec fn step(v: AppV, k: KeyInput) -> AppV {
    match v.mode {
        Mode::Normal => normal_step(v, k),
        Mode::Search => search_step(v, k),
        Mode::Command => command_step(v, k),
    }
}

impl App {
    #[verifier::type_invariant]
    spec fn inv(self) -> bool {
        &&& self.scroll <= SCROLL_LIMIT
        &&& self.scroll <= self.lines@.len()
        &&& self.viewport_height <= SCROLL_LIMIT
        &&& self.search_matches@.len() > 0 ==> self.search_cursor < self.search_matches@.len()
    }

    /// A pager over the given lines, at the top, in normal mode, with a
    /// viewport of 24 lines and no search.
    pub fn new(lines: Vec<Line>, filename: String) -> (app: App)
        ensures
            app@ == initial(lines_view(lines@), filename@),
    {
        App {
            lines,
            filename,
            scroll: 0,
            viewport_height: 24,
            mode: Mode::Normal,
            search_input: Vec::new(),
            search_query: Vec::new(),
            search_matches: Vec::new(),
            search_cursor: 0,
            command_input: Vec::new(),
            should_quit: false,
        }
    }

    /// Whether the pager has been asked to quit.
    pub fn should_quit(&self) -> (b: bool)
        ensures
            b == self@.should_quit,
    {
        self.should_quit
    }

    /// The first line shown.
    pub fn scroll(&self) -> (s: usize)
        ensures
            s as nat == self@.scroll,
    {
        self.scroll
    }

    /// The current mode.
    pub fn mode(&self) -> (m: Mode)
        ensures
            m == self@.mode,
    {
        self.mode
    }

    /// The lines that hold the last query.
    pub fn search_matches(&self) -> (m: &Vec<usize>)
        ensures
            m@ == self@.search_matches,
    {
        &self.search_matches
    }

    /// The terminal area changed: the viewport is its height less the status bar.
    pub fn resize(&mut self, area_height: u16)
        ensures
            final(self)@ == (AppV { viewport_height: sat_sub(area_height as nat, 1), ..old(self)@ }),
    {
        proof {
            use_type_invariant(&*self);
        }
        self.viewport_height = if area_height >= 1 { (area_height - 1) as usize } else { 0 };
    }

    /// The largest scroll offset.
    pub fn max_scroll(&self) -> (m: usize)
        ensures
            m as nat == max_scroll(self@),
            m <= SCROLL_LIMIT,
            m <= self@.lines.len(),
    {
        let n = self.lines.len();
        let d = if n >= self.viewport_height { n - self.viewport_height } else { 0 };
        if d <= SCROLL_LIMIT { d } else { SCROLL_LIMIT }
    }

    /// How far a page scrolls.
    pub fn page_size(&self) -> (p: usize)
        ensures
            p as nat == page_size(self@),
            p <= SCROLL_LIMIT,
    {
        proof {
            use_type_invariant(self);
        }
        let p = if self.viewport_height >= 2 { self.viewport_height - 2 } else { 0 };
        if p >= 1 { p } else { 1 }
    }

    /// How far down the document the view is, in percent.
    pub fn scroll_percent(&self) -> (p: usize)
        ensures
            p as nat == scroll_percent(self@),
    {
        proof {
            use_type_invariant(self);
        }
        let m = self.max_scroll();
        if m == 0 {
            100
        } else {
            assert(self.scroll * 100 <= SCROLL_LIMIT * 100) by (nonlinear_arith)
                requires
                    self.scroll <= SCROLL_LIMIT,
            ;
            (self.scroll * 100) / m
        }
    }

    /// Scrolls by `delta` lines, staying within 0 and the largest offset.
    fn scroll_by(&mut self, delta: isize)
        requires
            isize::MIN <= old(self)@.scroll + delta <= isize::MAX,
        ensures
            final(self)@ == with_scroll(old(self)@, scrolled(old(self)@, delta as int)),
    {
        proof {
            use_type_invariant(&*self);
        }
        let cur = self.scroll as isize;
        let moved = cur + delta;
        let clamped: usize = if moved >= 0 { moved as usize } else { 0 };
        let m = self.max_scroll();
        self.scroll = if clamped <= m { clamped } else { m };
    }

    /// Finds the lines that hold the last query, ignoring case, and selects the first.
    fn execute_search(&mut self)
        ensures
            final(self)@ == searched(old(self)@),
    {
        proof {
            use_type_invariant(&*self);
        }
        self.search_cursor = 0;
        let mut found: Vec<usize> = Vec::new();
        if self.search_query.len() > 0 {
            let q = string_of(&self.search_query);
            let ql = to_lowercase(q.as_str());
            let qv = chars_of(ql.as_str());
            let ghost lv = lines_view(self.lines@);
            let mut i: usize = 0;
            while i < self.lines.len()
                invariant
                    i <= self.lines@.len(),
                    lv == lines_view(self.lines@),
                    qv@ == lowercase(self.search_query@),
                    found@ == matches_upto(lv, self.search_query@, i as nat),
                decreases self.lines@.len() - i,
            {
                let text = line_text_exec(&self.lines[i]);
                let tl = to_lowercase(text.as_str());
                let tv = chars_of(tl.as_str());
                if contains_chars(&tv, &qv) {
                    found.push(i);
                }
                i += 1;
            }
        }
        self.search_matches = found;
    }

    /// Selects the next match, wrapping around, and scrolls to it.
    fn jump_next_match(&mut self)
        ensures
            final(self)@ == next_match(old(self)@),
    {
        proof {
            use_type_invariant(&*self);
        }
        if self.search_matches.len() == 0 {
            return;
        }
        let c = (self.search_cursor + 1) % self.search_matches.len();
        let m = self.max_scroll();
        let target = self.search_matches[c];
        self.search_cursor = c;
        self.scroll = if target <= m { target } else { m };
    }

    /// Selects the previous match, wrapping around, and scrolls to it.
    fn jump_prev_match(&mut self)
        ensures
            final(self)@ == prev_match(old(self)@),
    {
        proof {
            use_type_invariant(&*self);
        }
        if self.search_matches.len() == 0 {
            return;
        }
        let c = if self.search_cursor == 0 {
            self.search_matches.len() - 1
        } else {
            self.search_cursor - 1
        };
        let m = self.max_scroll();
        let target = self.search_matches[c];
        self.search_cursor = c;
        self.scroll = if target <= m { target } else { m };
    }

    /// Handles a key in normal mode.
    fn handle_normal_key(&mut self, key: KeyInput)
        requires
            old(self)@.mode == Mode::Normal,
        ensures
            final(self)@ == normal_step(old(self)@, key),
    {
        proof {
            use_type_invariant(&*self);
        }
        match key.code {
            KeyCode::Char('q') => self.should_quit = true,
            KeyCode::Char('c') if key.ctrl => self.should_quit = true,
            KeyCode::Char('j') | KeyCode::Down => self.scroll_by(1),
            KeyCode::Char('k') | KeyCode::Up => self.scroll_by(-1),
            KeyCode::Char(' ') | KeyCode::Char('f') | KeyCode::PageDown => {
                let p = self.page_size();
                self.scroll_by(p as isize)
            },
            KeyCode::Char('b') | KeyCode::PageUp => {
                let p = self.page_size();
                self.scroll_by(-(p as isize))
            },
            KeyCode::Char('d') if key.ctrl => {
                let h = self.viewport_height / 2;
                self.scroll_by(h as isize)
            },
            KeyCode::Char('u') if key.ctrl => {
                let h = self.viewport_height / 2;
                self.scroll_by(-(h as isize))
            },
            KeyCode::Char('g') | KeyCode::Home => self.scroll = 0,
            KeyCode::Char('G') | KeyCode::End => {
                let m = self.max_scroll();
                self.scroll = m;
            },
            KeyCode::Char('/') => {
                self.mode = Mode::Search;
                self.search_input = Vec::new();
            },
            KeyCode::Char(':') => {
                self.mode = Mode::Command;
                self.command_input = Vec::new();
            },
            KeyCode::Char('n') => self.jump_next_match(),
            KeyCode::Char('N') => self.jump_prev_match(),
            _ => {},
        }
    }

    /// Handles a key while a query is typed.
    fn handle_search_key(&mut self, key: KeyInput)
        requires
            old(self)@.mode == Mode::Search,
        ensures
            final(self)@ == search_step(old(self)@, key),
    {
        proof {
            use_type_invariant(&*self);
        }
        match key.code {
            KeyCode::Enter => {
                assert(self.search_input@.take(self.search_input@.len() as int) =~= self.search_input@);
                self.search_query = copy_prefix(&self.search_input, self.search_input.len());
                self.execute_search();
                self.mode = Mode::Normal;
                if self.search_matches.len() > 0 {
                    self.search_cursor = 0;
                    let m = self.max_scroll();
                    let first = self.search_matches[0];
                    self.scroll = if first <= m { first } else { m };
                }
            },
            KeyCode::Esc => {
                self.search_input = Vec::new();
                self.mode = Mode::Normal;
            },
            KeyCode::Backspace => {
                if self.search_input.len() > 0 {
                    let n = self.search_input.len() - 1;
                    self.search_input = copy_prefix(&self.search_input, n);
                }
            },
            KeyCode::Char(c) => {
                let mut v = copy_prefix(&self.search_input, self.search_input.len());
                v.push(c);
                self.search_input = v;
            },
            _ => {},
        }
    }

    /// Handles a key while a line number is typed.
    fn handle_command_key(&mut self, key: KeyInput)
        requires
            old(self)@.mode == Mode::Command,
        ensures
            final(self)@ == command_step(old(self)@, key),
    {
        proof {
            use_type_invariant(&*self);
        }
        match key.code {
            KeyCode::Enter => {
                match parse_usize(&self.command_input) {
                    Some(n) => {
                        let target = if n >= 1 { n - 1 } else { 0 };
                        let m = self.max_scroll();
                        self.scroll = if target <= m { target } else { m };
                    },
                    None => {},
                }
                self.command_input = Vec::new();
                self.mode = Mode::Normal;
            },
            KeyCode::Esc => {
                self.command_input = Vec::new();
                self.mode = Mode::Normal;
            },
            KeyCode::Backspace => {
                if self.command_input.len() > 0 {
                    let n = self.command_input.len() - 1;
                    self.command_input = copy_prefix(&self.command_input, n);
                }
            },
            KeyCode::Char(c) => {
                if '0' <= c && c <= '9' {
                    let mut v = copy_prefix(&self.command_input, self.command_input.len());
                    v.push(c);
                    self.command_input = v;
                }
            },
            _ => {},
        }
    }

    /// Handles a key press.
    pub fn handle_key(&mut self, key: KeyInput)
        ensures
            final(self)@ == step(old(self)@, key),
    {
        match self.mode {
            Mode::Normal => self.handle_normal_key(key),
            Mode::Search => self.handle_search_key(key),
            Mode::Command => self.handle_command_key(key),
        }
    }
}

/// The first `n` characters of `v`.
fn copy_prefix(v: &Vec<char>, n: usize) -> (r: Vec<char>)
    requires
        n <= v@.len(),
    ensures
        r@ == v@.take(n as int),
{
    let mut r: Vec<char> = Vec::new();
    let mut i: usize = 0;
    while i < n
        invariant
            i <= n <= v@.len(),
            r@ == v@.take(i as int),
        decreases n - i,
    {
        r.push(v[i]);
        i += 1;
        assert(r@ =~= v@.take(i as int));
    }
    r
}

/// The text of a line.
pub fn line_text_exec(l: &Line) -> (t: String)
    ensures
        t@ == line_text(l@),
{
    crate::render::spans_text_exec(&l.spans)
}

/// The positions in `tl` where the successive, non-overlapping occurrences
/// of `ql` start, searching from `from` on (none for an empty `ql`).
pub open spec fn match_starts(tl: Seq<char>, ql: Seq<char>, from: int) -> Seq<int>
    decreases tl.len() - from,
{
    if ql.len() == 0 || from < 0 || from > tl.len() {
        Seq::empty()
    } else {
        match first_occurrence(tl, ql, from) {
            Some(p) => if from <= p && p + ql.len() <= tl.len() {
                seq![p] + match_starts(tl, ql, p + ql.len())
            } else {
                Seq::empty()
            },
            None => Seq::empty(),
        }
    }
}

/// The style of highlighted text: black on yellow.
pub open spec fn highlight_style() -> Style {
    Style::plain().with_fg(Color::Black).with_bg(Color::Yellow)
}

pub open spec fn imax(a: int, b: int) -> int {
    if a >= b { a } else { b }
}

pub open spec fn imin(a: int, b: int) -> int {
    if a <= b { a } else { b }
}

/// The pieces of a span whose text `text` covers positions `s` to `e` of the
/// line, cut at the first `n` matches of `ms` (each `qlen` long), and the
/// position in `text` after the last highlighted piece.
pub open spec fn span_fold(text: Seq<char>, s: int, e: int, style: Style, ms: Seq<int>, qlen: int, n: nat) -> (Seq<SpanV>, int)
    decreases n,
{
    if n == 0 {
        (Seq::empty(), 0)
    } else {
        let (acc, off) = span_fold(text, s, e, style, ms, qlen, (n - 1) as nat);
        let m_start = ms[n - 1];
        let m_end = m_start + qlen;
        if m_end <= s || m_start >= e {
            (acc, off)
        } else {
            let hs = imax(m_start, s) - s;
            let he = imin(m_end, e) - s;
            let acc2 = if hs > off { acc.push(SpanV { content: text.subrange(off, hs), style }) } else { acc };
            (acc2.push(SpanV { content: text.subrange(hs, he), style: highlight_style() }), he)
        }
    }
}

/// The pieces of one span: the matched parts highlighted, the rest in the
/// span's own style.
pub open spec fn span_pieces(text: Seq<char>, s: int, e: int, style: Style, ms: Seq<int>, qlen: int) -> Seq<SpanV> {
    let (acc, off) = span_fold(text, s, e, style, ms, qlen, ms.len());
    if off < text.len() {
        acc.push(SpanV { content: text.subrange(off, text.len() as int), style })
    } else {
        acc
    }
}

/// The pieces of the spans `sp`, the first of which starts the line.
pub open spec fn line_pieces(sp: Seq<SpanV>, ms: Seq<int>, qlen: int) -> Seq<SpanV>
    decreases sp.len(),
{
    if sp.len() == 0 {
        Seq::empty()
    } else {
        let s = spans_text(sp.drop_last()).len() as int;
        let last = sp.last();
        line_pieces(sp.drop_last(), ms, qlen) + span_pieces(last.content, s, s + last.content.len(), last.style, ms, qlen)
    }
}

/// A line with the occurrences of the query `q` highlighted, ignoring case;
/// the line as it is when the query is empty or does not occur.
pub open spec fn highlighted(line: Seq<SpanV>, q: Seq<char>) -> Seq<SpanV> {
    if q.len() == 0 {
        line
    } else {
        let ql = lowercase(q);
        let ms = match_starts(lowercase(line_text(line)), ql, 0);
        if ms.len() == 0 { line } else { line_pieces(line, ms, ql.len() as int) }
    }
}

proof fn lemma_spans_text_prefix(sp: Seq<SpanV>, k: int)
    requires
        0 <= k <= sp.len(),
    ensures
        spans_text(sp.take(k)).len() <= spans_text(sp).len(),
    decreases sp.len() - k,
{
    if k < sp.len() {
        lemma_spans_text_prefix(sp, k + 1);
        assert(sp.take(k + 1).drop_last() =~= sp.take(k));
    } else {
        assert(sp.take(k) =~= sp);
    }
}

/// A copy of a line.
pub fn copy_line(line: &Line) -> (r: Line)
    ensures
        r@ == line@,
{
    let mut spans: Vec<Span> = Vec::new();
    let mut i: usize = 0;
    while i < line.spans.len()
        invariant
            i <= line.spans@.len(),
            spans_view(spans@) == spans_view(line.spans@).take(i as int),
        decreases line.spans@.len() - i,
    {
        let sp = &line.spans[i];
        let ghost prev = spans_view(spans@);
        assert(spans_view(line.spans@)[i as int] == sp@);
        spans.push(Span::styled(sp.content.clone(), sp.style));
        assert(spans_view(spans@) =~= prev.push(sp@));
        i += 1;
        assert(spans_view(spans@) =~= spans_view(line.spans@).take(i as int));
    }
    assert(spans_view(line.spans@).take(i as int) =~= spans_view(line.spans@));
    Line::from_spans(spans)
}

pub open spec fn ints(v: Seq<usize>) -> Seq<int> {
    v.map_values(|x: usize| x as int)
}

/// The starts of the successive, non-overlapping occurrences of `ql` in `tl`.
fn find_all(tl: &Vec<char>, ql: &Vec<char>) -> (ms: Vec<usize>)
    ensures
        ints(ms@) == match_starts(tl@, ql@, 0),
        forall|j: int| 0 <= j < ms@.len() ==> ms@[j] + ql@.len() <= tl@.len(),
{
    let mut ms: Vec<usize> = Vec::new();
    if ql.len() == 0 {
        assert(ints(ms@) =~= Seq::<int>::empty());
        return ms;
    }
    let mut pos: usize = 0;
    assert(ints(ms@) + match_starts(tl@, ql@, 0) =~= match_starts(tl@, ql@, 0));
    loop
        invariant
            pos <= tl@.len(),
            ql@.len() > 0,
            match_starts(tl@, ql@, 0) == ints(ms@) + match_starts(tl@, ql@, pos as int),
            forall|j: int| 0 <= j < ms@.len() ==> ms@[j] + ql@.len() <= tl@.len(),
        decreases tl@.len() - pos,
    {
        match find_from(tl, ql, pos) {
            Some(p) => {
                proof {
                    lemma_first_occurrence_found(tl@, ql@, pos as int);
                    assert(occurs_at(tl@, ql@, p as int));
                    assert(tl@.len() == tl.len());
                }
                let ghost prev = ints(ms@);
                ms.push(p);
                assert(ints(ms@) =~= prev.push(p as int));
                assert(ints(ms@) + match_starts(tl@, ql@, p + ql@.len()) =~= prev + match_starts(tl@, ql@, pos as int));
                pos = p + ql.len();
            },
            None => {
                assert(match_starts(tl@, ql@, pos as int) =~= Seq::<int>::empty());
                assert(ints(ms@) + Seq::<int>::empty() =~= ints(ms@));
                return ms;
            },
        }
    }
}

/// Appends the pieces of one span (text `text`, at positions `s` to `e`).
fn push_span_pieces(text: &Vec<char>, s: usize, e: usize, style: Style, ms: &Vec<usize>, qlen: usize, tlen: usize, out: &mut Vec<Span>)
    requires
        s + text@.len() == e,
        qlen > 0,
        forall|j: int| 0 <= j < ms@.len() ==> ms@[j] + qlen <= tlen,
    ensures
        spans_view(final(out)@) == spans_view(old(out)@) + span_pieces(text@, s as int, e as int, style, ints(ms@), qlen as int),
{
    let ghost msi = ints(ms@);
    let ghost base = spans_view(out@);
    let mut off: usize = 0;
    let mut j: usize = 0;
    assert(spans_view(out@) =~= base + span_fold(text@, s as int, e as int, style, msi, qlen as int, 0).0);
    while j < ms.len()
        invariant
            j <= ms@.len(),
            msi == ints(ms@),
            s + text@.len() == e,
            qlen > 0,
            forall|k: int| 0 <= k < ms@.len() ==> ms@[k] + qlen <= tlen,
            base == spans_view(old(out)@),
            spans_view(out@) == base + span_fold(text@, s as int, e as int, style, msi, qlen as int, j as nat).0,
            off as int == span_fold(text@, s as int, e as int, style, msi, qlen as int, j as nat).1,
            off <= text@.len(),
        decreases ms@.len() - j,
    {
        let m_start = ms[j];
        let m_end = m_start + qlen;
        assert(msi[j as int] == m_start as int);
        if !(m_end <= s || m_start >= e) {
            let hs = (if m_start >= s { m_start } else { s }) - s;
            let he = (if m_end <= e { m_end } else { e }) - s;
            if hs > off {
                let ghost b0 = spans_view(out@);
                out.push(Span::styled(string_of_range(text, off, hs), style));
                assert(spans_view(out@) =~= b0.push(SpanV { content: text@.subrange(off as int, hs as int), style }));
            }
            let ghost b1 = spans_view(out@);
            out.push(Span::styled(string_of_range(text, hs, he), Style::new().fg(Color::Black).bg(Color::Yellow)));
            assert(spans_view(out@) =~= b1.push(SpanV { content: text@.subrange(hs as int, he as int), style: highlight_style() }));
            off = he;
        }
        j += 1;
    }
    assert(msi.len() == ms@.len());
    if off < text.len() {
        let ghost b2 = spans_view(out@);
        out.push(Span::styled(string_of_range(text, off, text.len()), style));
        assert(spans_view(out@) =~= b2.push(SpanV { content: text@.subrange(off as int, text@.len() as int), style }));
    }
}

impl App {
    /// A line with the occurrences of the last query highlighted.
    pub fn highlight_line(&self, line: &Line) -> (r: Line)
        ensures
            r@ == highlighted(line@, self@.search_query),
    {
        if self.search_query.len() == 0 {
            return copy_line(line);
        }
        let full = line_text_exec(line);
        let q = string_of(&self.search_query);
        let ql = chars_of(to_lowercase(q.as_str()).as_str());
        let tl = chars_of(to_lowercase(full.as_str()).as_str());
        let ms = find_all(&tl, &ql);
        if ms.len() == 0 {
            return copy_line(line);
        }
        let ghost lv = line@;
        let ghost msi = ints(ms@);
        let mut out: Vec<Span> = Vec::new();
        let mut start: usize = 0;
        let mut k: usize = 0;
        let fv = chars_of(full.as_str());
        assert(spans_view(out@) =~= line_pieces(lv.take(0), msi, ql@.len() as int));
        while k < line.spans.len()
            invariant
                k <= line.spans@.len(),
                lv == line@,
                lv == spans_view(line.spans@),
                msi == ints(ms@),
                ql@.len() > 0,
                forall|j: int| 0 <= j < ms@.len() ==> ms@[j] + ql@.len() <= tl@.len(),
                fv@ == line_text(lv),
                start as int == spans_text(lv.take(k as int)).len(),
                spans_view(out@) == line_pieces(lv.take(k as int), msi, ql@.len() as int),
            decreases line.spans@.len() - k,
        {
            let sp = &line.spans[k];
            let text = chars_of(sp.content.as_str());
            proof {
                lemma_spans_text_prefix(lv, k + 1);
                assert(lv.take(k + 1).drop_last() =~= lv.take(k as int));
                assert(lv.take(k + 1).last() == sp@);
                assert(spans_text(lv.take(k + 1)) == spans_text(lv.take(k as int)) + sp.content@);
                assert(fv@.len() == fv.len());
            }
            let end = start + text.len();
            push_span_pieces(&text, start, end, sp.style, &ms, ql.len(), tl.len(), &mut out);
            start = end;
            k += 1;
        }
        assert(lv.take(k as int) =~= lv);
        Line::from_spans(out)
    }
}

/// The position shown at the right of the status bar: `All` when every line
/// fits, `Top` at the start, `Bot` at the end, else the percentage.
pub open spec fn position_text(v: AppV) -> Seq<char> {
    if v.lines.len() <= v.viewport_height {
        "All"@
    } else if v.scroll == 0 {
        "Top"@
    } else if v.scroll >= max_scroll(v) {
        "Bot"@
    } else {
        decimal(scroll_percent(v)) + "%"@
    }
}

/// The left part of the status bar: the input being typed, or the file name
/// with the search state.
pub open spec fn status_left(v: AppV) -> Seq<char> {
    match v.mode {
        Mode::Search => "/"@ + v.search_input,
        Mode::Command => ":"@ + v.command_input,
        Mode::Normal => if v.search_query.len() > 0 && v.search_matches.len() > 0 {
            " "@ + v.filename + " ["@ + decimal(v.search_cursor + 1) + "/"@ + decimal(v.search_matches.len()) + "]"@
        } else if v.search_query.len() > 0 {
            " "@ + v.filename + " [not found]"@
        } else {
            " "@ + v.filename
        },
    }
}

/// The right part of the status bar.
pub open spec fn status_right(v: AppV) -> Seq<char> {
    " "@ + position_text(v) + " "@
}

/// The status bar of a terminal `width` columns wide: the left part, spaces
/// up to the width, the right part.
pub open spec fn status_text(v: AppV, width: nat) -> Seq<char> {
    let left = status_left(v);
    let right = status_right(v);
    left + repeat_seq(" "@, sat_sub(sat_sub(width, text_width(left)), text_width(right))) + right
}

/// The lines shown: the viewport's lines from the scroll offset on, with the
/// query's occurrences highlighted.
pub open spec fn visible(v: AppV) -> Seq<Seq<SpanV>> {
    let end = min(v.scroll + v.viewport_height, v.lines.len());
    v.lines.subrange(v.scroll as int, end as int).map_values(|l: Seq<SpanV>| highlighted(l, v.search_query))
}

/// The style of the status bar: black on white.
pub open spec fn status_style_spec() -> Style {
    Style::plain().with_fg(Color::Black).with_bg(Color::White)
}

/// The style the status bar is drawn in: black on white.
pub fn status_style() -> (s: Style)
    ensures
        s == status_style_spec(),
{
    Style::new().fg(Color::Black).bg(Color::White)
}

impl App {
    /// The text of the status bar for a terminal `width` columns wide.
    pub fn status_text(&self, width: u16) -> (t: String)
        ensures
            t@ == status_text(self@, width as nat),
    {
        proof {
            use_type_invariant(self);
        }
        let pos = if self.lines.len() <= self.viewport_height {
            crate::render::lit("All")
        } else if self.scroll == 0 {
            crate::render::lit("Top")
        } else if self.scroll >= self.max_scroll() {
            crate::render::lit("Bot")
        } else {
            let mut p = String::new();
            push_decimal(&mut p, self.scroll_percent() as u128);
            p.append("%");
            p
        };
        let mut left = String::new();
        match self.mode {
            Mode::Search => {
                left.append("/");
                let t = string_of(&self.search_input);
                left.append(t.as_str());
            },
            Mode::Command => {
                left.append(":");
                let t = string_of(&self.command_input);
                left.append(t.as_str());
            },
            Mode::Normal => {
                left.append(" ");
                left.append(self.filename.as_str());
                if self.search_query.len() > 0 && self.search_matches.len() > 0 {
                    left.append(" [");
                    push_decimal(&mut left, self.search_cursor as u128 + 1);
                    left.append("/");
                    push_decimal(&mut left, self.search_matches.len() as u128);
                    left.append("]");
                } else if self.search_query.len() > 0 {
                    left.append(" [not found]");
                }
            },
        }
        let mut right = crate::render::lit(" ");
        right.append(pos.as_str());
        right.append(" ");
        let wl = display_width(left.as_str());
        let wr = display_width(right.as_str());
        let w = width as usize;
        let rest = if w >= wl { w - wl } else { 0 };
        let padding = if rest >= wr { rest - wr } else { 0 };
        let spaces = repeat_str(" ", padding);
        let mut t = left;
        t.append(spaces.as_str());
        t.append(right.as_str());
        t
    }

    /// The lines to show: those in the viewport, with the query highlighted.
    pub fn visible_lines(&self) -> (r: Vec<Line>)
        ensures
            lines_view(r@) == visible(self@),
    {
        proof {
            use_type_invariant(self);
        }
        let n = self.lines.len();
        let end = if self.scroll + self.viewport_height <= n { self.scroll + self.viewport_height } else { n };
        let ghost lv = lines_view(self.lines@);
        let mut out: Vec<Line> = Vec::new();
        let mut i = self.scroll;
        assert(lines_view(out@) =~= lv.subrange(self.scroll as int, i as int).map_values(|l: Seq<SpanV>| highlighted(l, self@.search_query)));
        while i < end
            invariant
                self.scroll <= i <= end <= self.lines@.len(),
                lv == lines_view(self.lines@),
                lines_view(out@) == lv.subrange(self.scroll as int, i as int).map_values(|l: Seq<SpanV>| highlighted(l, self@.search_query)),
            decreases end - i,
        {
            let l = self.highlight_line(&self.lines[i]);
            let ghost prev = lines_view(out@);
            out.push(l);
            assert(lv[i as int] == self.lines@[i as int]@);
            assert(lines_view(out@) =~= prev.push(highlighted(lv[i as int], self@.search_query)));
            assert(lv.subrange(self.scroll as int, i + 1) =~= lv.subrange(self.scroll as int, i as int).push(lv[i as int]));
            assert(lines_view(out@) =~= lv.subrange(self.scroll as int, i + 1).map_values(|l: Seq<SpanV>| highlighted(l, self@.search_query)));
            i += 1;
        }
        out
    }
}

} // verus!
