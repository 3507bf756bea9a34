//! Properties of the pager and of search highlighting that hold of every
//! state and every input.

use vstd::prelude::*;
use crate::app::{
    AppV, KeyCode, initial, KeyInput, Mode, SCROLL_LIMIT, highlighted, highlight_style, imax, imin, line_matches, min,
    line_pieces, line_text, match_starts, matches_upto, max_scroll, sat_sub, scrolled, search_results,
    span_fold, span_pieces, step, with_scroll,
};
use crate::render::{attr_text, blocks_lines, rendered_xml, block_lines, code_block_lines, code_label, col_width, num_cols, row_cells, row_line, sep_cells, sep_line, span, spans_text};
use crate::style::{SpanV, Style};
use crate::tree::{ElemV, Tag};
use crate::xml::{code_attrs, info_key, lemma_read_back, print_document, wf_elem};
use crate::text::{
    all_digits, decimal, first_occurrence, is_digit, occurs_at, lemma_decimal_digits, lemma_parse_decimal, repeat_seq, text_width, utf8_len,
};

verus! {

/// What every state of the pager satisfies: the view starts inside the
/// document and within the scroll limit, the viewport is no taller than that
/// limit, and the current match exists when there are matches.
pub open spec fn valid(v: AppV) -> bool {
    &&& v.scroll <= v.lines.len()
    &&& v.scroll <= SCROLL_LIMIT
    &&& v.viewport_height <= SCROLL_LIMIT
    &&& v.search_matches.len() > 0 ==> v.search_cursor < v.search_matches.len()
}

pub open spec fn key(c: char) -> KeyInput {
    KeyInput { code: KeyCode::Char(c), ctrl: false }
}

/// A new pager is in a valid state.
pub proof fn lemma_new_valid(lines: Seq<Seq<SpanV>>, filename: Seq<char>)
    ensures
        valid(initial(lines, filename)),
{
}

/// Every key keeps the pager valid.
pub proof fn lemma_step_valid(v: AppV, k: KeyInput)
    requires
        valid(v),
    ensures
        valid(step(v, k)),
{
}

/// A resize keeps the pager valid (the viewport is the area less one line).
pub proof fn lemma_resize_valid(v: AppV, area_height: u16)
    requires
        valid(v),
    ensures
        valid(AppV { viewport_height: sat_sub(area_height as nat, 1), ..v }),
{
}

/// Keys never change the document, its name, or the viewport.
pub proof fn lemma_step_keeps_document(v: AppV, k: KeyInput)
    ensures
        step(v, k).lines == v.lines,
        step(v, k).filename == v.filename,
        step(v, k).viewport_height == v.viewport_height,
{
}

/// Whether a key scrolls in normal mode.
pub open spec fn is_scroll_key(k: KeyInput) -> bool {
    match k.code {
        KeyCode::Char('j') | KeyCode::Char('k') | KeyCode::Char(' ') | KeyCode::Char('f')
        | KeyCode::Char('b') | KeyCode::Char('g') | KeyCode::Char('G') => true,
        KeyCode::Char('d') | KeyCode::Char('u') => k.ctrl,
        KeyCode::Up | KeyCode::Down | KeyCode::PageUp | KeyCode::PageDown | KeyCode::Home | KeyCode::End => true,
        _ => false,
    }
}

/// Scrolling never takes the view past the last screenful.
pub proof fn lemma_scroll_keys_bounded(v: AppV, k: KeyInput)
    requires
        valid(v),
        v.mode == Mode::Normal,
        is_scroll_key(k),
    ensures
        step(v, k).scroll <= max_scroll(v),
{
}

/// Scrolling down by `d` lines and then up by `d` lines comes back to where
/// the view was, when the first move stayed within the document.
pub proof fn lemma_scroll_back(v: AppV, d: nat)
    requires
        valid(v),
        v.scroll + d <= max_scroll(v),
    ensures
        scrolled(with_scroll(v, scrolled(v, d as int)), -(d as int)) == v.scroll,
{
}

/// `j` then `k` comes back to the same state, unless the view was at the end.
pub proof fn lemma_down_then_up(v: AppV)
    requires
        valid(v),
        v.mode == Mode::Normal,
        v.scroll < max_scroll(v),
    ensures
        step(step(v, key('j')), key('k')) == v,
{
}

/// `k` then `j` comes back to the same state, unless the view was at the top.
pub proof fn lemma_up_then_down(v: AppV)
    requires
        valid(v),
        v.mode == Mode::Normal,
        v.scroll > 0,
        v.scroll <= max_scroll(v),
    ensures
        step(step(v, key('k')), key('j')) == v,
{
}

/// `n` then `N` comes back to the same match, and shows it.
pub proof fn lemma_next_then_prev(v: AppV)
    requires
        valid(v),
        v.mode == Mode::Normal,
    ensures
        step(step(v, key('n')), key('N')).search_cursor == v.search_cursor,
        v.search_matches.len() > 0 ==> step(step(v, key('n')), key('N')).scroll == min(
            v.search_matches[v.search_cursor as int] as nat,
            max_scroll(v),
        ),
{
    if v.search_matches.len() > 0 {
        let n = v.search_matches.len() as int;
        let c = v.search_cursor as int;
        assert(((c + 1) % n) == if c + 1 == n { 0 } else { c + 1 }) by (nonlinear_arith)
            requires
                0 <= c < n,
        ;
    }
}

/// `N` then `n` comes back to the same match, and shows it.
pub proof fn lemma_prev_then_next(v: AppV)
    requires
        valid(v),
        v.mode == Mode::Normal,
    ensures
        step(step(v, key('N')), key('n')).search_cursor == v.search_cursor,
        v.search_matches.len() > 0 ==> step(step(v, key('N')), key('n')).scroll == min(
            v.search_matches[v.search_cursor as int] as nat,
            max_scroll(v),
        ),
{
    if v.search_matches.len() > 0 {
        let n = v.search_matches.len() as int;
        let c = v.search_cursor as int;
        let p: int = if c == 0 { n - 1 } else { c - 1 };
        assert(((p + 1) % n) == c) by (nonlinear_arith)
            requires
                0 <= c < n,
                p == if c == 0 { n - 1 } else { c - 1 },
        ;
    }
}

/// The search finds exactly the lines that hold the query, ignoring case, in
/// increasing order.
pub proof fn lemma_search_results(lines: Seq<Seq<SpanV>>, q: Seq<char>)
    requires
        lines.len() <= usize::MAX,
    ensures
        forall|j: int|
            0 <= j < search_results(lines, q).len() ==> {
                &&& (#[trigger] search_results(lines, q)[j]) < lines.len()
                &&& line_matches(lines[search_results(lines, q)[j] as int], q)
            },
        forall|i: int|
            0 <= i < lines.len() && q.len() > 0 && line_matches(#[trigger] lines[i], q)
                ==> search_results(lines, q).contains(i as usize),
        forall|j1: int, j2: int|
            0 <= j1 < j2 < search_results(lines, q).len()
                ==> search_results(lines, q)[j1] < search_results(lines, q)[j2],
{
    if q.len() > 0 {
        lemma_matches_upto(lines, q, lines.len());
    }
}

proof fn lemma_matches_upto(lines: Seq<Seq<SpanV>>, q: Seq<char>, n: nat)
    requires
        n <= lines.len(),
        lines.len() <= usize::MAX,
    ensures
        forall|j: int|
            0 <= j < matches_upto(lines, q, n).len() ==> {
                &&& (#[trigger] matches_upto(lines, q, n)[j]) < n
                &&& line_matches(lines[matches_upto(lines, q, n)[j] as int], q)
            },
        forall|i: int| 0 <= i < n && line_matches(#[trigger] lines[i], q) ==> matches_upto(lines, q, n).contains(i as usize),
        forall|j1: int, j2: int|
            0 <= j1 < j2 < matches_upto(lines, q, n).len()
                ==> matches_upto(lines, q, n)[j1] < matches_upto(lines, q, n)[j2],
    decreases n,
{
    if n > 0 {
        lemma_matches_upto(lines, q, (n - 1) as nat);
        let prev = matches_upto(lines, q, (n - 1) as nat);
        if line_matches(lines[n - 1], q) {
            let cur = prev.push((n - 1) as usize);
            assert(cur[prev.len() as int] == (n - 1) as usize);
            assert forall|i: int| 0 <= i < n && line_matches(#[trigger] lines[i], q) implies cur.contains(i as usize) by {
                if i < n - 1 {
                    let j = choose|j: int| 0 <= j < prev.len() && prev[j] == i as usize;
                    assert(cur[j] == i as usize);
                }
            }
        } else {
            assert forall|i: int| 0 <= i < n && line_matches(#[trigger] lines[i], q) implies prev.contains(i as usize) by {
            }
        }
    }
}

/// After a search that finds something, the first match is on screen, unless
/// it lies beyond the scroll limit and the viewport together.
pub proof fn lemma_search_shows_first_match(v: AppV)
    requires
        valid(v),
        v.lines.len() <= usize::MAX,
        v.mode == Mode::Search,
        v.viewport_height >= 1,
        step(v, KeyInput { code: KeyCode::Enter, ctrl: false }).search_matches.len() > 0,
        step(v, KeyInput { code: KeyCode::Enter, ctrl: false }).search_matches[0] < SCROLL_LIMIT + v.viewport_height,
    ensures
        ({
            let w = step(v, KeyInput { code: KeyCode::Enter, ctrl: false });
            &&& w.mode == Mode::Normal
            &&& w.search_cursor == 0
            &&& w.scroll <= w.search_matches[0] < w.scroll + w.viewport_height
        }),
{
    lemma_search_results(v.lines, v.search_input);
}

/// The match starts of `match_starts` are increasing, at least a query apart,
/// not before `from`, and end within the text.
proof fn lemma_match_starts(tl: Seq<char>, ql: Seq<char>, from: int)
    ensures
        forall|j: int| 0 <= j < match_starts(tl, ql, from).len() ==> from <= #[trigger] match_starts(tl, ql, from)[j],
        forall|j: int|
            0 <= j < match_starts(tl, ql, from).len() ==> #[trigger] match_starts(tl, ql, from)[j] + ql.len() <= tl.len(),
        forall|j: int|
            0 <= j < match_starts(tl, ql, from).len() - 1 ==> #[trigger] match_starts(tl, ql, from)[j] + ql.len()
                <= match_starts(tl, ql, from)[j + 1],
        ql.len() == 0 ==> match_starts(tl, ql, from).len() == 0,
    decreases tl.len() - from,
{
    if ql.len() == 0 || from < 0 || from > tl.len() {
    } else {
        match first_occurrence(tl, ql, from) {
            Some(p) => if from <= p && p + ql.len() <= tl.len() {
                lemma_match_starts(tl, ql, p + ql.len());
                let rest = match_starts(tl, ql, p + ql.len());
                let all = match_starts(tl, ql, from);
                assert(all == seq![p] + rest);
                assert forall|j: int| 0 <= j < all.len() - 1 implies #[trigger] all[j] + ql.len() <= all[j + 1] by {
                    if j == 0 {
                        if rest.len() > 0 {
                            assert(all[1] == rest[0]);
                        }
                    } else {
                        assert(all[j] == rest[j - 1]);
                        assert(all[j + 1] == rest[j]);
                    }
                }
                assert forall|j: int| 0 <= j < all.len() implies from <= #[trigger] all[j] by {
                    if j > 0 {
                        assert(all[j] == rest[j - 1]);
                    }
                }
                assert forall|j: int| 0 <= j < all.len() implies #[trigger] all[j] + ql.len() <= tl.len() by {
                    if j > 0 {
                        assert(all[j] == rest[j - 1]);
                    }
                }
            },
            None => {},
        }
    }
}

/// Match starts in increasing order, each at least a query's length after the one before.
pub open spec fn spaced(ms: Seq<int>, qlen: int) -> bool {
    &&& forall|j: int| 0 <= j < ms.len() - 1 ==> #[trigger] ms[j] + qlen <= ms[j + 1]
}

/// The pieces cut so far spell the text up to the offset, which comes no
/// later than where the next match starts within the span.
proof fn lemma_span_fold(text: Seq<char>, s: int, style: Style, ms: Seq<int>, qlen: int, n: nat)
    requires
        n <= ms.len(),
        qlen > 0,
        spaced(ms, qlen),
    ensures
        ({
            let (acc, off) = span_fold(text, s, s + text.len(), style, ms, qlen, n);
            &&& 0 <= off <= text.len()
            &&& spans_text(acc) == text.subrange(0, off)
            &&& n < ms.len() ==> off <= imax(ms[n as int] - s, 0)
        }),
    decreases n,
{
    let e = s + text.len();
    if n == 0 {
        assert(text.subrange(0, 0) =~= Seq::<char>::empty());
    } else {
        lemma_span_fold(text, s, style, ms, qlen, (n - 1) as nat);
        let (acc, off) = span_fold(text, s, e, style, ms, qlen, (n - 1) as nat);
        let m_start = ms[n - 1];
        let m_end = m_start + qlen;
        if m_end <= s || m_start >= e {
            if n < ms.len() {
                assert(ms[n - 1] + qlen <= ms[n as int]);
            }
        } else {
            let hs = imax(m_start, s) - s;
            let he = imin(m_end, e) - s;
            assert(off <= hs);
            let acc2 = if hs > off { acc.push(SpanV { content: text.subrange(off, hs), style }) } else { acc };
            assert(spans_text(acc2) =~= text.subrange(0, hs)) by {
                if hs > off {
                    assert(acc.push(SpanV { content: text.subrange(off, hs), style }).drop_last() == acc);
                }
            }
            let acc3 = acc2.push(SpanV { content: text.subrange(hs, he), style: highlight_style() });
            assert(acc3.drop_last() == acc2);
            assert(spans_text(acc3) =~= text.subrange(0, he));
            if n < ms.len() {
                assert(ms[n - 1] + qlen <= ms[n as int]);
            }
        }
    }
}

proof fn lemma_span_pieces(text: Seq<char>, s: int, style: Style, ms: Seq<int>, qlen: int)
    requires
        qlen > 0,
        spaced(ms, qlen),
    ensures
        spans_text(span_pieces(text, s, s + text.len(), style, ms, qlen)) == text,
{
    lemma_span_fold(text, s, style, ms, qlen, ms.len());
    let (acc, off) = span_fold(text, s, s + text.len(), style, ms, qlen, ms.len());
    if off < text.len() {
        let r = acc.push(SpanV { content: text.subrange(off, text.len() as int), style });
        assert(r.drop_last() == acc);
        assert(spans_text(r) =~= text);
    } else {
        assert(text.subrange(0, off) =~= text);
    }
}

proof fn lemma_spans_text_append(a: Seq<SpanV>, b: Seq<SpanV>)
    ensures
        spans_text(a + b) == spans_text(a) + spans_text(b),
    decreases b.len(),
{
    if b.len() == 0 {
        assert(a + b =~= a);
    } else {
        lemma_spans_text_append(a, b.drop_last());
        assert((a + b).drop_last() =~= a + b.drop_last());
    }
}

proof fn lemma_line_pieces(sp: Seq<SpanV>, ms: Seq<int>, qlen: int)
    requires
        qlen > 0,
        spaced(ms, qlen),
    ensures
        spans_text(line_pieces(sp, ms, qlen)) == spans_text(sp),
    decreases sp.len(),
{
    if sp.len() > 0 {
        lemma_line_pieces(sp.drop_last(), ms, qlen);
        let s = spans_text(sp.drop_last()).len() as int;
        let last = sp.last();
        lemma_span_pieces(last.content, s, last.style, ms, qlen);
        lemma_spans_text_append(
            line_pieces(sp.drop_last(), ms, qlen),
            span_pieces(last.content, s, s + last.content.len(), last.style, ms, qlen),
        );
    }
}

/// Highlighting the query never changes the text of a line.
pub proof fn lemma_highlight_keeps_text(line: Seq<SpanV>, q: Seq<char>)
    ensures
        line_text(highlighted(line, q)) == line_text(line),
{
    if q.len() > 0 {
        let ql = crate::text::lowercase(q);
        let ms = match_starts(crate::text::lowercase(line_text(line)), ql, 0);
        if ms.len() > 0 {
            lemma_match_starts(crate::text::lowercase(line_text(line)), ql, 0);
            lemma_line_pieces(line, ms, ql.len() as int);
        }
    }
}

/// The Enter key.
pub open spec fn enter() -> KeyInput {
    KeyInput { code: KeyCode::Enter, ctrl: false }
}

/// The keys that type the characters of `s`.
pub open spec fn typed(s: Seq<char>) -> Seq<KeyInput> {
    s.map_values(|c: char| key(c))
}

/// The state after the keys `ks`, pressed one after another.
pub open spec fn steps(v: AppV, ks: Seq<KeyInput>) -> AppV
    decreases ks.len(),
{
    if ks.len() == 0 {
        v
    } else {
        steps(step(v, ks[0]), ks.drop_first())
    }
}

proof fn lemma_steps_append(v: AppV, a: Seq<KeyInput>, b: Seq<KeyInput>)
    ensures
        steps(v, a + b) == steps(steps(v, a), b),
    decreases a.len(),
{
    if a.len() == 0 {
        assert(a + b =~= b);
    } else {
        assert((a + b)[0] == a[0]);
        assert((a + b).drop_first() =~= a.drop_first() + b);
        lemma_steps_append(step(v, a[0]), a.drop_first(), b);
    }
}

proof fn lemma_steps_one(v: AppV, k: KeyInput)
    ensures
        steps(v, seq![k]) == step(v, k),
{
    assert(seq![k].drop_first() =~= Seq::<KeyInput>::empty());
    assert(seq![k][0] == k);
    assert(steps(step(v, k), Seq::<KeyInput>::empty()) == step(v, k));
}

/// Typing while a query is typed appends to the query and changes nothing else.
proof fn lemma_type_query(v: AppV, s: Seq<char>)
    requires
        v.mode == Mode::Search,
    ensures
        steps(v, typed(s)) == (AppV { search_input: v.search_input + s, ..v }),
    decreases s.len(),
{
    if s.len() == 0 {
        assert(v.search_input + s =~= v.search_input);
        assert(steps(v, typed(s)) =~= (AppV { search_input: v.search_input + s, ..v }));
    } else {
        let w = step(v, key(s[0]));
        assert(typed(s)[0] == key(s[0]));
        assert(typed(s).drop_first() =~= typed(s.drop_first()));
        lemma_type_query(w, s.drop_first());
        assert(v.search_input.push(s[0]) + s.drop_first() =~= v.search_input + s);
        assert(steps(v, typed(s)) =~= (AppV { search_input: v.search_input + s, ..v }));
    }
}

/// Typing digits while a line number is typed appends them and changes nothing else.
proof fn lemma_type_digits(v: AppV, s: Seq<char>)
    requires
        v.mode == Mode::Command,
        all_digits(s),
    ensures
        steps(v, typed(s)) == (AppV { command_input: v.command_input + s, ..v }),
    decreases s.len(),
{
    if s.len() == 0 {
        assert(v.command_input + s =~= v.command_input);
        assert(steps(v, typed(s)) =~= (AppV { command_input: v.command_input + s, ..v }));
    } else {
        assert(is_digit(s[0]));
        let w = step(v, key(s[0]));
        assert(typed(s)[0] == key(s[0]));
        assert(typed(s).drop_first() =~= typed(s.drop_first()));
        assert(all_digits(s.drop_first())) by {
            assert forall|i: int| 0 <= i < s.drop_first().len() implies is_digit(#[trigger] s.drop_first()[i]) by {
                assert(s.drop_first()[i] == s[i + 1]);
            }
        }
        lemma_type_digits(w, s.drop_first());
        assert(v.command_input.push(s[0]) + s.drop_first() =~= v.command_input + s);
        assert(steps(v, typed(s)) =~= (AppV { command_input: v.command_input + s, ..v }));
    }
}

/// Typing `/`, a query and Enter searches for that query: the matches are
/// exactly the lines that hold it, the first is selected and scrolled to
/// (as far as the view can scroll), and nothing else changes.
pub proof fn lemma_typed_search(v: AppV, q: Seq<char>)
    requires
        v.mode == Mode::Normal,
    ensures
        ({
            let w = steps(v, seq![key('/')] + typed(q) + seq![enter()]);
            let found = search_results(v.lines, q);
            w == (AppV {
                mode: Mode::Normal,
                search_input: q,
                search_query: q,
                search_matches: found,
                search_cursor: 0,
                scroll: if found.len() > 0 { min(found[0] as nat, max_scroll(v)) } else { v.scroll },
                ..v
            })
        }),
{
    let ks1 = seq![key('/')];
    let ks2 = typed(q);
    let ks3 = seq![enter()];
    lemma_steps_append(v, ks1 + ks2, ks3);
    lemma_steps_append(v, ks1, ks2);
    lemma_steps_one(v, key('/'));
    let v1 = step(v, key('/'));
    lemma_type_query(v1, q);
    assert(Seq::<char>::empty() + q =~= q);
    let v2 = steps(v1, ks2);
    lemma_steps_one(v2, enter());
}

/// Typing `:`, the decimal digits of `n` and Enter scrolls to line `n`
/// (counted from 1; as far as the view can scroll), and changes nothing else.
pub proof fn lemma_line_jump(v: AppV, n: usize)
    requires
        v.mode == Mode::Normal,
    ensures
        steps(v, seq![key(':')] + typed(decimal(n as nat)) + seq![enter()]) == (AppV {
            mode: Mode::Normal,
            command_input: Seq::empty(),
            scroll: min(sat_sub(n as nat, 1), max_scroll(v)),
            ..v
        }),
{
    let ds = decimal(n as nat);
    let ks1 = seq![key(':')];
    let ks2 = typed(ds);
    let ks3 = seq![enter()];
    lemma_steps_append(v, ks1 + ks2, ks3);
    lemma_steps_append(v, ks1, ks2);
    lemma_steps_one(v, key(':'));
    let v1 = step(v, key(':'));
    lemma_decimal_digits(n as nat);
    lemma_type_digits(v1, ds);
    assert(Seq::<char>::empty() + ds =~= ds);
    let v2 = steps(v1, ks2);
    lemma_steps_one(v2, enter());
    lemma_parse_decimal(n);
}

/// The style of each character of a line, in order.
pub open spec fn char_styles(sp: Seq<SpanV>) -> Seq<Style>
    decreases sp.len(),
{
    if sp.len() == 0 {
        Seq::empty()
    } else {
        char_styles(sp.drop_last()) + Seq::new(sp.last().content.len(), |i: int| sp.last().style)
    }
}

/// Whether position `p` lies in one of the matches that start at `ms`, each
/// `qlen` long.
pub open spec fn in_match(ms: Seq<int>, qlen: int, p: int) -> bool {
    exists|j: int| 0 <= j < ms.len() && #[trigger] ms[j] <= p < ms[j] + qlen
}

/// Whether position `p` lies in one of the first `n` matches.
spec fn covered(ms: Seq<int>, qlen: int, n: nat, p: int) -> bool
    decreases n,
{
    n > 0 && (covered(ms, qlen, (n - 1) as nat, p) || (ms[n - 1] <= p < ms[n - 1] + qlen))
}

proof fn lemma_covered(ms: Seq<int>, qlen: int, n: nat, p: int)
    requires
        n <= ms.len(),
    ensures
        covered(ms, qlen, n, p) <==> exists|j: int| 0 <= j < n && #[trigger] ms[j] <= p < ms[j] + qlen,
    decreases n,
{
    if n > 0 {
        lemma_covered(ms, qlen, (n - 1) as nat, p);
        if ms[n - 1] <= p < ms[n - 1] + qlen {
            assert(0 <= n - 1 < n && ms[n - 1] <= p < ms[n - 1] + qlen);
        }
    }
}

proof fn lemma_char_styles_append(a: Seq<SpanV>, b: Seq<SpanV>)
    ensures
        char_styles(a + b) == char_styles(a) + char_styles(b),
    decreases b.len(),
{
    if b.len() == 0 {
        assert(a + b =~= a);
        assert(char_styles(a) + char_styles(b) =~= char_styles(a));
    } else {
        lemma_char_styles_append(a, b.drop_last());
        assert((a + b).drop_last() =~= a + b.drop_last());
        assert((a + b).last() == b.last());
        assert(char_styles(a + b) =~= char_styles(a) + char_styles(b));
    }
}

proof fn lemma_char_styles_len(sp: Seq<SpanV>)
    ensures
        char_styles(sp).len() == spans_text(sp).len(),
    decreases sp.len(),
{
    if sp.len() > 0 {
        lemma_char_styles_len(sp.drop_last());
    }
}

proof fn lemma_char_styles_push(a: Seq<SpanV>, x: SpanV)
    ensures
        char_styles(a.push(x)) == char_styles(a) + Seq::new(x.content.len(), |i: int| x.style),
{
    assert(a.push(x).drop_last() =~= a);
}

/// The pieces cut from a span so far give the characters before the offset
/// the highlight style where one of the matches so far covers them, the
/// span's style elsewhere; no match so far covers a character after it.
proof fn lemma_span_fold_styles(text: Seq<char>, s: int, style: Style, ms: Seq<int>, qlen: int, n: nat)
    requires
        n <= ms.len(),
        qlen > 0,
        spaced(ms, qlen),
    ensures
        ({
            let (acc, off) = span_fold(text, s, s + text.len(), style, ms, qlen, n);
            &&& char_styles(acc).len() == off
            &&& forall|t: int| 0 <= t < off ==> #[trigger] char_styles(acc)[t] == if covered(ms, qlen, n, s + t) {
                highlight_style()
            } else {
                style
            }
            &&& forall|t: int| off <= t < text.len() ==> !#[trigger] covered(ms, qlen, n, s + t)
        }),
    decreases n,
{
    let e = s + text.len();
    lemma_span_fold(text, s, style, ms, qlen, n);
    if n > 0 {
        lemma_span_fold_styles(text, s, style, ms, qlen, (n - 1) as nat);
        lemma_span_fold(text, s, style, ms, qlen, (n - 1) as nat);
        let (acc, off) = span_fold(text, s, e, style, ms, qlen, (n - 1) as nat);
        let m_start = ms[n - 1];
        let m_end = m_start + qlen;
        lemma_char_styles_len(acc);
        if m_end <= s || m_start >= e {
            assert forall|t: int| 0 <= t < text.len() implies #[trigger] covered(ms, qlen, n, s + t) == covered(ms, qlen, (n - 1) as nat, s + t) by {
            }
        } else {
            let hs = imax(m_start, s) - s;
            let he = imin(m_end, e) - s;
            assert(off <= hs);
            let p1 = SpanV { content: text.subrange(off, hs), style };
            let p2 = SpanV { content: text.subrange(hs, he), style: highlight_style() };
            let acc2 = if hs > off { acc.push(p1) } else { acc };
            let acc3 = acc2.push(p2);
            assert(char_styles(acc2) == char_styles(acc) + Seq::new((hs - off) as nat, |i: int| style)) by {
                if hs > off {
                    lemma_char_styles_push(acc, p1);
                } else {
                    assert(char_styles(acc) + Seq::new((hs - off) as nat, |i: int| style) =~= char_styles(acc));
                }
            }
            lemma_char_styles_push(acc2, p2);
            let cs = char_styles(acc3);
            assert(cs.len() == he);
            assert forall|t: int| 0 <= t < he implies #[trigger] cs[t] == if covered(ms, qlen, n, s + t) {
                highlight_style()
            } else {
                style
            } by {
                if t < off {
                    assert(cs[t] == char_styles(acc)[t]);
                } else if t < hs {
                    assert(cs[t] == style);
                    assert(!covered(ms, qlen, (n - 1) as nat, s + t));
                } else {
                    assert(cs[t] == highlight_style());
                }
            }
            assert forall|t: int| he <= t < text.len() implies !#[trigger] covered(ms, qlen, n, s + t) by {
                assert(!covered(ms, qlen, (n - 1) as nat, s + t));
            }
        }
    }
}

/// The pieces of one span give each of its characters the highlight style
/// where a match covers it, the span's style elsewhere.
proof fn lemma_span_pieces_styles(text: Seq<char>, s: int, style: Style, ms: Seq<int>, qlen: int)
    requires
        qlen > 0,
        spaced(ms, qlen),
    ensures
        char_styles(span_pieces(text, s, s + text.len(), style, ms, qlen)).len() == text.len(),
        forall|t: int| 0 <= t < text.len() ==> #[trigger] char_styles(span_pieces(text, s, s + text.len(), style, ms, qlen))[t]
            == if covered(ms, qlen, ms.len(), s + t) { highlight_style() } else { style },
{
    lemma_span_fold_styles(text, s, style, ms, qlen, ms.len());
    lemma_span_fold(text, s, style, ms, qlen, ms.len());
    let (acc, off) = span_fold(text, s, s + text.len(), style, ms, qlen, ms.len());
    if off < text.len() {
        let x = SpanV { content: text.subrange(off, text.len() as int), style };
        lemma_char_styles_push(acc, x);
    }
}

proof fn lemma_line_pieces_styles(sp: Seq<SpanV>, ms: Seq<int>, qlen: int)
    requires
        qlen > 0,
        spaced(ms, qlen),
    ensures
        char_styles(line_pieces(sp, ms, qlen)).len() == char_styles(sp).len(),
        forall|p: int| 0 <= p < char_styles(sp).len() ==> #[trigger] char_styles(line_pieces(sp, ms, qlen))[p]
            == if covered(ms, qlen, ms.len(), p) { highlight_style() } else { char_styles(sp)[p] },
    decreases sp.len(),
{
    if sp.len() > 0 {
        let init = sp.drop_last();
        let last = sp.last();
        let s = spans_text(init).len() as int;
        lemma_line_pieces_styles(init, ms, qlen);
        lemma_span_pieces_styles(last.content, s, last.style, ms, qlen);
        let a = line_pieces(init, ms, qlen);
        let b = span_pieces(last.content, s, s + last.content.len(), last.style, ms, qlen);
        lemma_char_styles_append(a, b);
        lemma_char_styles_len(init);
        let whole = char_styles(sp);
        assert(whole == char_styles(init) + Seq::new(last.content.len(), |i: int| last.style));
        assert forall|p: int| 0 <= p < whole.len() implies #[trigger] char_styles(line_pieces(sp, ms, qlen))[p]
            == if covered(ms, qlen, ms.len(), p) { highlight_style() } else { whole[p] } by {
            if p >= s {
                assert(char_styles(b)[p - s] == if covered(ms, qlen, ms.len(), s + (p - s)) { highlight_style() } else { last.style });
            }
        }
    }
}

/// Search highlighting gives black on yellow to the characters at the
/// positions where the lowercased query occurs in the lowercased line (its
/// successive, non-overlapping occurrences), and leaves every other character
/// in its own style.
pub proof fn lemma_highlight_marks_matches(line: Seq<SpanV>, q: Seq<char>)
    ensures
        ({
            let ql = crate::text::lowercase(q);
            let ms = match_starts(crate::text::lowercase(line_text(line)), ql, 0);
            let after = char_styles(highlighted(line, q));
            &&& after.len() == char_styles(line).len()
            &&& forall|p: int| 0 <= p < after.len() ==> #[trigger] after[p] == if q.len() > 0 && in_match(ms, ql.len() as int, p) {
                highlight_style()
            } else {
                char_styles(line)[p]
            }
        }),
{
    let ql = crate::text::lowercase(q);
    let ms = match_starts(crate::text::lowercase(line_text(line)), ql, 0);
    if q.len() > 0 {
        lemma_match_starts(crate::text::lowercase(line_text(line)), ql, 0);
        if ms.len() > 0 {
            lemma_line_pieces_styles(line, ms, ql.len() as int);
            assert forall|p: int| 0 <= p < char_styles(line).len() implies #[trigger] covered(ms, ql.len() as int, ms.len(), p) == in_match(ms, ql.len() as int, p) by {
                lemma_covered(ms, ql.len() as int, ms.len(), p);
            }
        }
    }
}

/// The columns `0..n` of a table, each as wide as its widest cell, with a
/// border of three characters after each.
pub open spec fn cols_span(rows: Seq<Seq<Seq<char>>>, n: nat) -> nat
    decreases n,
{
    if n == 0 {
        0
    } else {
        cols_span(rows, (n - 1) as nat) + col_width(rows, n - 1) + 3
    }
}

/// Every cell's text takes as many columns as it has characters.
pub open spec fn cells_narrow(rows: Seq<Seq<Seq<char>>>) -> bool {
    forall|r: int, i: int| 0 <= r < rows.len() && 0 <= i < rows[r].len() ==> text_width(#[trigger] rows[r][i]) == rows[r][i].len()
}

proof fn lemma_spans_text_one(x: SpanV)
    ensures
        spans_text(seq![x]) == x.content,
{
    assert(seq![x].drop_last() =~= Seq::<SpanV>::empty());
    assert(seq![x].last() == x);
    assert(spans_text(Seq::<SpanV>::empty()) == Seq::<char>::empty());
    assert(Seq::<char>::empty() + x.content =~= x.content);
}

proof fn lemma_spans_text_two(x: SpanV, y: SpanV)
    ensures
        spans_text(seq![x, y]) == x.content + y.content,
{
    assert(seq![x, y].drop_last() =~= seq![x]);
    lemma_spans_text_one(x);
}

proof fn lemma_repeat_len(s: Seq<char>, n: nat)
    requires
        s.len() == 1,
    ensures
        repeat_seq(s, n).len() == n,
    decreases n,
{
    if n > 0 {
        lemma_repeat_len(s, (n - 1) as nat);
    }
}

/// No cell is wider than its column.
proof fn lemma_cell_within_column(rows: Seq<Seq<Seq<char>>>, r: int, i: int)
    requires
        0 <= r < rows.len(),
        0 <= i < rows[r].len(),
    ensures
        text_width(rows[r][i]) <= col_width(rows, i),
    decreases rows.len(),
{
    if r < rows.len() - 1 {
        assert(rows.drop_last()[r] == rows[r]);
        lemma_cell_within_column(rows.drop_last(), r, i);
    }
}

proof fn lemma_row_cells_len(rows: Seq<Seq<Seq<char>>>, r: int, style: Style, n: nat)
    requires
        cells_narrow(rows),
        0 <= r < rows.len(),
        n <= rows[r].len(),
    ensures
        spans_text(row_cells(rows, rows[r], style, n)).len() == cols_span(rows, n),
    decreases n,
{
    if n > 0 {
        let i = n - 1;
        let row = rows[r];
        let cell = row[i];
        lemma_row_cells_len(rows, r, style, (n - 1) as nat);
        lemma_cell_within_column(rows, r, i);
        assert(text_width(rows[r][i]) == rows[r][i].len());
        let pad = (col_width(rows, i) - text_width(cell)) as nat;
        reveal_strlit(" ");
        reveal_strlit(" \u{2502} ");
        lemma_repeat_len(" "@, pad);
        let a = row_cells(rows, row, style, (n - 1) as nat);
        let b = seq![
            span(cell + repeat_seq(" "@, pad), style),
            span(" \u{2502} "@, crate::render::border()),
        ];
        lemma_spans_text_append(a, b);
        lemma_spans_text_two(b[0], b[1]);
        assert(b =~= seq![b[0], b[1]]);
        assert(spans_text(b).len() == col_width(rows, i) + 3);
    }
}

proof fn lemma_sep_cells_len(rows: Seq<Seq<Seq<char>>>, n: nat)
    requires
        0 < n <= num_cols(rows),
    ensures
        spans_text(sep_cells(rows, n)).len() + 3 == cols_span(rows, n) + if n < num_cols(rows) { 3int } else { 0int },
    decreases n,
{
    let i = n - 1;
    let w = col_width(rows, i);
    reveal_strlit("\u{2500}");
    reveal_strlit("\u{2500}\u{253c}\u{2500}");
    lemma_repeat_len("\u{2500}"@, w);
    let bar = seq![span(repeat_seq("\u{2500}"@, w), crate::render::border())];
    let joint = if i + 1 < num_cols(rows) { seq![span("\u{2500}\u{253c}\u{2500}"@, crate::render::border())] } else { Seq::<SpanV>::empty() };
    let prev = sep_cells(rows, (n - 1) as nat);
    assert(sep_cells(rows, n) == prev + bar + joint);
    lemma_spans_text_append(prev + bar, joint);
    lemma_spans_text_append(prev, bar);
    lemma_spans_text_one(bar[0]);
    assert(bar =~= seq![bar[0]]);
    if joint.len() > 0 {
        lemma_spans_text_one(joint[0]);
        assert(joint =~= seq![joint[0]]);
    } else {
        assert(spans_text(joint) =~= Seq::<char>::empty());
    }
    if n > 1 {
        lemma_sep_cells_len(rows, (n - 1) as nat);
        assert(spans_text(prev).len() == cols_span(rows, (n - 1) as nat));
    } else {
        assert(prev =~= Seq::<SpanV>::empty());
        assert(spans_text(prev).len() == 0);
        assert(cols_span(rows, 0) == 0);
    }
    assert(spans_text(bar).len() == w);
    assert(spans_text(joint).len() == if i + 1 < num_cols(rows) { 3int } else { 0int });
    assert(spans_text(sep_cells(rows, n)).len() == spans_text(prev).len() + w + spans_text(joint).len());
}

/// Table columns line up: when every cell takes as many columns as it has
/// characters, a row of `k` cells is `2 + cols_span(rows, k)` characters
/// long (so the rows that fill every column are equally long), and the line
/// under the header is one character shorter than such a row, its right
/// corner under their last border (a row ends with a space after it).
pub proof fn lemma_table_aligned(rows: Seq<Seq<Seq<char>>>)
    requires
        cells_narrow(rows),
        num_cols(rows) > 0,
    ensures
        forall|r: int| 0 <= r < rows.len() ==> spans_text(row_line(rows, #[trigger] rows[r], r == 0)).len()
            == 2 + cols_span(rows, rows[r].len()),
        spans_text(sep_line(rows)).len() == 1 + cols_span(rows, num_cols(rows)),
{
    assert forall|r: int| 0 <= r < rows.len() implies spans_text(row_line(rows, #[trigger] rows[r], r == 0)).len()
        == 2 + cols_span(rows, rows[r].len()) by {
        let style = if r == 0 { crate::render::header_style() } else { Style::plain() };
        let head = seq![span("\u{2502} "@, crate::render::border())];
        reveal_strlit("\u{2502} ");
        lemma_row_cells_len(rows, r, style, rows[r].len());
        lemma_spans_text_append(head, row_cells(rows, rows[r], style, rows[r].len()));
        lemma_spans_text_one(head[0]);
        assert(head =~= seq![head[0]]);
    }
    let nc = num_cols(rows);
    let head = seq![span("\u{251c}\u{2500}"@, crate::render::border())];
    let tail = seq![span("\u{2500}\u{2524}"@, crate::render::border())];
    reveal_strlit("\u{251c}\u{2500}");
    reveal_strlit("\u{2500}\u{2524}");
    lemma_sep_cells_len(rows, nc);
    lemma_spans_text_append(head + sep_cells(rows, nc), tail);
    lemma_spans_text_append(head, sep_cells(rows, nc));
    lemma_spans_text_one(head[0]);
    assert(head =~= seq![head[0]]);
    lemma_spans_text_one(tail[0]);
    assert(tail =~= seq![tail[0]]);
}

/// A code block's frame closes: when its label takes one byte a character
/// and is at most 46 characters long, the top border (with the label) and the
/// bottom border are both 50 characters long.
pub proof fn lemma_code_frame(lang: Seq<char>, code: Seq<char>)
    requires
        utf8_len(code_label(lang)) == code_label(lang).len(),
        code_label(lang).len() <= 46,
    ensures
        ({
            let ls = code_block_lines(lang, code);
            &&& spans_text(ls[0]).len() == 50
            &&& spans_text(ls[ls.len() - 2]).len() == 50
        }),
{
    let label = code_label(lang);
    let ls = code_block_lines(lang, code);
    let pad = (50 - (utf8_len(label) + 4)) as nat;
    reveal_strlit("\u{250c}\u{2500} ");
    reveal_strlit(" ");
    reveal_strlit("\u{2500}");
    reveal_strlit("\u{2514}");
    lemma_repeat_len("\u{2500}"@, pad);
    lemma_repeat_len("\u{2500}"@, 49);
    let top = span("\u{250c}\u{2500} "@ + label + " "@ + repeat_seq("\u{2500}"@, pad), crate::render::border());
    let bottom = span("\u{2514}"@ + repeat_seq("\u{2500}"@, 49), crate::render::border());
    assert(ls[0] == seq![top]);
    assert(ls[ls.len() - 2] == seq![bottom]);
    lemma_spans_text_one(top);
    lemma_spans_text_one(bottom);
}

/// `g` shows the first line; `G` shows the last line, with the viewport
/// full when the document fills it (unless the end lies beyond the scroll
/// limit and the viewport together).
pub proof fn lemma_top_and_bottom(v: AppV)
    requires
        valid(v),
        v.mode == Mode::Normal,
    ensures
        step(v, key('g')).scroll == 0,
        v.lines.len() <= SCROLL_LIMIT + v.viewport_height ==> ({
            let w = step(v, key('G'));
            &&& w.scroll + w.viewport_height >= w.lines.len()
            &&& (w.lines.len() >= w.viewport_height ==> w.scroll + w.viewport_height == w.lines.len())
        }),
{
}

/// While a query is typed, a character followed by Backspace gives back the
/// state as it was.
pub proof fn lemma_type_then_backspace(v: AppV, c: char)
    requires
        v.mode == Mode::Search,
    ensures
        step(step(v, key(c)), KeyInput { code: KeyCode::Backspace, ctrl: false }) == v,
{
    assert(v.search_input.push(c).drop_last() =~= v.search_input);
}

/// The line number being typed holds digits only, whatever key comes; a
/// character that is not a digit changes nothing while it is typed.
pub proof fn lemma_command_digits(v: AppV, k: KeyInput)
    requires
        all_digits(v.command_input),
    ensures
        all_digits(step(v, k).command_input),
        v.mode == Mode::Command ==> (k.code matches KeyCode::Char(c) && !is_digit(c) ==> step(v, k) == v),
{
    let w = step(v, k);
    if v.mode == Mode::Command {
        match k.code {
            KeyCode::Char(c) => {
                if is_digit(c) {
                    assert forall|i: int| 0 <= i < w.command_input.len() implies is_digit(#[trigger] w.command_input[i]) by {
                        if i < v.command_input.len() {
                            assert(w.command_input[i] == v.command_input[i]);
                        }
                    }
                }
            },
            KeyCode::Backspace => {
                if v.command_input.len() > 0 {
                    assert forall|i: int| 0 <= i < w.command_input.len() implies is_digit(#[trigger] w.command_input[i]) by {
                        assert(w.command_input[i] == v.command_input[i]);
                    }
                }
            },
            _ => {},
        }
    }
}

/// Every block of these kinds renders to at least one line, and its last
/// line is empty (the walk over a document only appends each block's lines).
pub proof fn lemma_block_ends_with_empty_line(e: ElemV, depth: nat)
    requires
        e.tag == Tag::Heading || e.tag == Tag::Paragraph || e.tag == Tag::CodeBlock || e.tag == Tag::List
            || e.tag == Tag::Alert || e.tag == Tag::BlockQuote || e.tag == Tag::ThematicBreak || e.tag == Tag::Table,
    ensures
        block_lines(e, depth).len() > 0,
        block_lines(e, depth).last() == Seq::<SpanV>::empty(),
{
}

/// A document written in the XML form renders to the lines of its blocks:
/// the reader loses nothing of it.
pub proof fn lemma_written_document_renders(d: ElemV)
    requires
        wf_elem(d),
    ensures
        rendered_xml(print_document(d)) == blocks_lines(d.children, 0),
{
    lemma_read_back(d);
}

/// A code block that carries an info string in the form comrak writes it
/// (the whole string, quotes and all) is framed with that string, trimmed, as
/// its label.
pub proof fn lemma_code_block_label(e: ElemV, depth: nat)
    requires
        e.tag == Tag::CodeBlock,
        code_attrs(e.attrs),
    ensures
        block_lines(e, depth) == code_block_lines(crate::text::trim_seq(e.attrs[0].1), e.literal),
{
    reveal_strlit("info");
    assert("info"@ =~= info_key());
    assert(attr_text(e.attrs, "info"@) == e.attrs[0].1);
}

/// The viewport shows the document from the scroll offset on: its `j`-th
/// line, every one of them the first included, is document line
/// `scroll + j` with the query's occurrences highlighted (its text
/// unchanged), and it shows as many lines as fit, up to the document's end.
pub proof fn lemma_visible_lines(v: AppV)
    requires
        valid(v),
    ensures
        crate::app::visible(v).len() == min(v.scroll + v.viewport_height, v.lines.len()) - v.scroll,
        forall|j: int| 0 <= j < crate::app::visible(v).len() ==> {
            &&& #[trigger] crate::app::visible(v)[j] == highlighted(v.lines[v.scroll + j], v.search_query)
            &&& line_text(crate::app::visible(v)[j]) == line_text(v.lines[v.scroll + j])
        },
{
    assert forall|j: int| 0 <= j < crate::app::visible(v).len() implies {
        &&& #[trigger] crate::app::visible(v)[j] == highlighted(v.lines[v.scroll + j], v.search_query)
        &&& line_text(crate::app::visible(v)[j]) == line_text(v.lines[v.scroll + j])
    } by {
        lemma_highlight_keeps_text(v.lines[v.scroll + j], v.search_query);
    }
}

/// A line is found by a search exactly when highlighting has an occurrence
/// of the query to mark in it: the lowercased query occurs in the lowercased
/// text of the whole line, all its spans together.
pub proof fn lemma_found_iff_marked(lines: Seq<Seq<SpanV>>, q: Seq<char>, i: int)
    requires
        lines.len() <= usize::MAX,
        0 <= i < lines.len(),
        q.len() > 0,
        crate::text::lowercase(q).len() > 0,
    ensures
        search_results(lines, q).contains(i as usize) <==> match_starts(
            crate::text::lowercase(line_text(lines[i])),
            crate::text::lowercase(q),
            0,
        ).len() > 0,
{
    lemma_search_results(lines, q);
    let r = search_results(lines, q);
    let tl = crate::text::lowercase(line_text(lines[i]));
    let ql = crate::text::lowercase(q);
    if r.contains(i as usize) {
        let j = choose|j: int| 0 <= j < r.len() && r[j] == i as usize;
        assert(line_matches(lines[r[j] as int], q));
        let k = choose|k: int| #[trigger] occurs_at(tl, ql, k);
        assert(0 <= k && occurs_at(tl, ql, k));
        assert(first_occurrence(tl, ql, 0) is Some);
        crate::text::lemma_first_occurrence_found(tl, ql, 0);
    }
    if match_starts(tl, ql, 0).len() > 0 {
        let p = first_occurrence(tl, ql, 0)->0;
        crate::text::lemma_first_occurrence_found(tl, ql, 0);
        assert(occurs_at(tl, ql, p));
        assert(line_matches(lines[i], q));
    }
}

/// An ASCII letter in upper case; other characters stay.
pub open spec fn ascii_upper(c: char) -> char {
    if 'a' <= c <= 'z' {
        ((c as u32) - 32) as char
    } else {
        c
    }
}

/// `t` with its first character in upper case.
pub open spec fn capitalized(t: Seq<char>) -> Seq<char> {
    if t.len() == 0 {
        t
    } else {
        seq![ascii_upper(t[0])] + t.drop_first()
    }
}

proof fn lemma_capitalized_kinds()
    ensures
        capitalized("note"@) == "Note"@,
        capitalized("tip"@) == "Tip"@,
        capitalized("important"@) == "Important"@,
        capitalized("warning"@) == "Warning"@,
        capitalized("caution"@) == "Caution"@,
{
    reveal_strlit("note");
    reveal_strlit("Note");
    reveal_strlit("tip");
    reveal_strlit("Tip");
    reveal_strlit("important");
    reveal_strlit("Important");
    reveal_strlit("warning");
    reveal_strlit("Warning");
    reveal_strlit("caution");
    reveal_strlit("Caution");
    assert(ascii_upper('n') == 'N');
    assert(ascii_upper('t') == 'T');
    assert(ascii_upper('i') == 'I');
    assert(ascii_upper('w') == 'W');
    assert(ascii_upper('c') == 'C');
    assert(capitalized("note"@) =~= "Note"@);
    assert(capitalized("tip"@) =~= "Tip"@);
    assert(capitalized("important"@) =~= "Important"@);
    assert(capitalized("warning"@) =~= "Warning"@);
    assert(capitalized("caution"@) =~= "Caution"@);
}

/// An alert without a title of its own is headed by its kind's icon and by
/// the name of its kind, as the `type` attribute gives it, capitalized
/// (`tip` is headed `Tip`).
pub proof fn lemma_alert_heading(e: ElemV, depth: nat)
    requires
        e.tag == Tag::Alert,
        crate::tree::attr_of(e.attrs, "title"@) is None,
        ({
            let t = attr_text(e.attrs, "type"@);
            t == "note"@ || t == "tip"@ || t == "important"@ || t == "warning"@ || t == "caution"@
        }),
    ensures
        ({
            let t = attr_text(e.attrs, "type"@);
            spans_text(block_lines(e, depth)[0]) == crate::render::alert_icon_spec(crate::render::alert_kind_of(t))
                + " "@ + capitalized(t)
        }),
{
    lemma_capitalized_kinds();
    let t = attr_text(e.attrs, "type"@);
    let k = crate::render::alert_kind_of(t);
    let head = span(
        crate::render::alert_icon_spec(k) + " "@ + crate::render::alert_title(e.attrs),
        crate::render::fg(crate::render::alert_color_spec(k)).with_modifier(crate::render::modifier_bold()),
    );
    assert(block_lines(e, depth)[0] == seq![head]);
    lemma_spans_text_one(head);
    reveal_strlit("note");
    reveal_strlit("tip");
    reveal_strlit("important");
    reveal_strlit("warning");
    reveal_strlit("caution");
}

/// Alerts of different kinds are headed by different default titles.
pub proof fn lemma_alert_titles_distinct(k1: crate::render::AlertKind, k2: crate::render::AlertKind)
    requires
        k1 != k2,
    ensures
        crate::render::alert_default_title(k1) != crate::render::alert_default_title(k2),
{
    reveal_strlit("Note");
    reveal_strlit("Tip");
    reveal_strlit("Important");
    reveal_strlit("Warning");
    reveal_strlit("Caution");
    let a = crate::render::alert_default_title(k1);
    let b = crate::render::alert_default_title(k2);
    if a == b {
        assert(a.len() == b.len());
        assert(a[0] == b[0]);
    }
}

proof fn lemma_item_fold_paragraphs(c: Seq<ElemV>, depth: nat, first: Seq<SpanV>)
    requires
        c.len() >= 1,
        forall|k: int| 0 <= k < c.len() ==> (#[trigger] c[k]).tag == Tag::Paragraph,
    ensures
        ({
            let (lines, pending) = crate::render::item_fold(c, depth, first);
            &&& pending == Seq::<SpanV>::empty()
            &&& lines.len() == c.len()
            &&& lines[0] == first + crate::render::inline_spans(c[0].children, Style::plain())
            &&& forall|k: int| 1 <= k < c.len() ==> #[trigger] lines[k] == crate::render::inline_spans(
                c[k].children,
                Style::plain(),
            )
        }),
    decreases c.len(),
{
    let init = c.drop_last();
    assert(c.last().tag == Tag::Paragraph);
    if c.len() == 1 {
        assert(init =~= Seq::<ElemV>::empty());
        assert(c.last() == c[0]);
        assert(crate::render::item_fold(init, depth, first) == (Seq::<Seq<SpanV>>::empty(), first));
        let (lines, pending) = crate::render::item_fold(c, depth, first);
        assert(lines == Seq::<Seq<SpanV>>::empty().push(first + crate::render::inline_spans(c[0].children, Style::plain())));
        assert(lines[0] == first + crate::render::inline_spans(c[0].children, Style::plain()));
    } else {
        assert forall|k: int| 0 <= k < init.len() implies (#[trigger] init[k]).tag == Tag::Paragraph by {
            assert(init[k] == c[k]);
        }
        lemma_item_fold_paragraphs(init, depth, first);
        let (lines0, pending0) = crate::render::item_fold(init, depth, first);
        assert(pending0 + crate::render::inline_spans(c.last().children, Style::plain())
            =~= crate::render::inline_spans(c.last().children, Style::plain()));
        let (lines, pending) = crate::render::item_fold(c, depth, first);
        assert(lines == lines0.push(crate::render::inline_spans(c.last().children, Style::plain())));
        assert forall|k: int| 1 <= k < c.len() implies #[trigger] lines[k] == crate::render::inline_spans(
            c[k].children,
            Style::plain(),
        ) by {
            if k < c.len() - 1 {
                assert(lines[k] == lines0[k]);
                assert(init[k] == c[k]);
            }
        }
        assert(init[0] == c[0]);
        assert(lines[0] == lines0[0]);
    }
}

/// Every paragraph of a list item renders to a line of its own, in order:
/// the first after the item's marker, each further one on the following
/// line, with nothing dropped.
pub proof fn lemma_item_paragraphs(item: ElemV, idx: nat, depth: nat, ordered: bool, start: nat)
    requires
        item.children.len() >= 1,
        forall|k: int| 0 <= k < item.children.len() ==> (#[trigger] item.children[k]).tag == Tag::Paragraph,
    ensures
        ({
            let ls = crate::render::item_lines(item, idx, depth, ordered, start);
            &&& ls.len() == item.children.len()
            &&& ls[0] == seq![span(crate::render::item_marker(item, idx, depth, ordered, start), crate::render::fg(crate::style::Color::Cyan))]
                + crate::render::inline_spans(item.children[0].children, Style::plain())
            &&& forall|k: int| 1 <= k < ls.len() ==> #[trigger] ls[k] == crate::render::inline_spans(
                item.children[k].children,
                Style::plain(),
            )
        }),
{
    let first = seq![span(crate::render::item_marker(item, idx, depth, ordered, start), crate::render::fg(crate::style::Color::Cyan))];
    lemma_item_fold_paragraphs(item.children, depth, first);
}

proof fn lemma_cell_text_append(a: Seq<ElemV>, b: Seq<ElemV>)
    ensures
        crate::render::cell_text(a + b) == crate::render::cell_text(a) + crate::render::cell_text(b),
    decreases b.len(),
{
    if b.len() == 0 {
        assert(a + b =~= a);
        assert(crate::render::cell_text(a) + crate::render::cell_text(b) =~= crate::render::cell_text(a));
    } else {
        lemma_cell_text_append(a, b.drop_last());
        assert((a + b).drop_last() =~= a + b.drop_last());
        assert((a + b).last() == b.last());
        assert(crate::render::cell_text(a + b) =~= crate::render::cell_text(a) + crate::render::cell_text(b));
    }
}

/// What a cell's inline child writes into the cell: a text's own text, a
/// code span's text between backquotes.
pub open spec fn source_piece(e: ElemV) -> Seq<char> {
    if e.tag == Tag::Code {
        "`"@ + e.literal + "`"@
    } else {
        e.literal
    }
}

/// A table cell keeps the characters of its source: the text of each text
/// child, and the text of each code span between backquotes, appear in the
/// cell's text, in the order of the children.
pub proof fn lemma_cell_keeps_source(c: Seq<ElemV>, k: int)
    requires
        0 <= k < c.len(),
        c[k].tag == Tag::Text || c[k].tag == Tag::Code,
    ensures
        occurs_at(
            crate::render::cell_text(c),
            source_piece(c[k]),
            crate::render::cell_text(c.take(k)).len() as int,
        ),
{
    let a = c.take(k);
    let b = c.skip(k + 1);
    let x = seq![c[k]];
    assert(c =~= a + x + b);
    lemma_cell_text_append(a + x, b);
    lemma_cell_text_append(a, x);
    assert(x.drop_last() =~= Seq::<ElemV>::empty());
    assert(x.last() == c[k]);
    assert(crate::render::cell_text(Seq::<ElemV>::empty()) == Seq::<char>::empty());
    assert(crate::render::cell_text(x) == crate::render::cell_text(x.drop_last()) + crate::render::cell_piece(x.last()));
    assert(crate::render::cell_text(x) =~= crate::render::cell_piece(c[k]));
    assert(crate::render::cell_piece(c[k]) == source_piece(c[k]));
    let t = crate::render::cell_text(c);
    let p = crate::render::cell_text(a).len() as int;
    assert(t.subrange(p, p + source_piece(c[k]).len()) =~= source_piece(c[k]));
}

/// In a rendered table, each cell's text holds the source text of its
/// inline children: a code span shows its text between backquotes.
pub proof fn lemma_table_cells_keep_source(t: Seq<ElemV>, r: int, i: int, k: int)
    requires
        0 <= r < t.len(),
        0 <= i < t[r].children.len(),
        0 <= k < t[r].children[i].children.len(),
        t[r].children[i].children[k].tag == Tag::Text || t[r].children[i].children[k].tag == Tag::Code,
    ensures
        crate::text::contains_seq(
            crate::render::table_rows(t)[r][i],
            source_piece(t[r].children[i].children[k]),
        ),
{
    let c = t[r].children[i].children;
    lemma_cell_keeps_source(c, k);
    assert(crate::render::table_rows(t)[r][i] == crate::render::cell_text(c));
}

} // verus!
