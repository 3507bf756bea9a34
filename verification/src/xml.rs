//! Reading the CommonMark XML form of a document into a document tree.
//!
//! The form read here: a two-line header, then one element. An element is
//! optional indentation, `<name`, attributes ` key="value"`, then either
//! ` />` and a newline (no children), or `>` followed by escaped literal text
//! and `</name>` and a newline (when the element has an `xml:space`
//! attribute), or `>`, a newline, the child elements, optional indentation and
//! `</name>` and a newline. `&quot;`, `&amp;`, `&lt;` and `&gt;` in values
//! and literal text stand for `"`, `&`, `<` and `>`, except in a code
//! block's `info` value, which is written as it stands and ends at the last
//! `" xml:space="preserve">` on its line (before `" math_style="display`
//! where that comes just before it).

use vstd::prelude::*;
use crate::text::{chars_of, occurs_at, matches_at, push_char, string_of_range};
use crate::tree::{Attr, Elem, ElemV, attr_of, attr_value, attrs_view, elems_view, lemma_elems_view_push, tag_from_name, tag_of};

verus! {

/// The first position at or after `i` that holds no space.
pub open spec fn skip_spaces(s: Seq<char>, i: int) -> int
    decreases s.len() - i,
{
    if 0 <= i < s.len() && s[i] == ' ' {
        skip_spaces(s, i + 1)
    } else {
        i
    }
}

/// Characters that may appear in element names and attribute keys.
pub open spec fn is_name_char(c: char) -> bool {
    c != ' ' && c != '>' && c != '/' && c != '<' && c != '=' && c != '"' && c != '\n'
}

/// The first position at or after `i` that holds no name character.
pub open spec fn scan_name(s: Seq<char>, i: int) -> int
    decreases s.len() - i,
{
    if 0 <= i < s.len() && is_name_char(s[i]) {
        scan_name(s, i + 1)
    } else {
        i
    }
}

/// The first position at or after `i` that holds `stop` (or the end).
pub open spec fn scan_until(s: Seq<char>, i: int, stop: char) -> int
    decreases s.len() - i,
{
    if 0 <= i < s.len() && s[i] != stop {
        scan_until(s, i + 1, stop)
    } else {
        i
    }
}

/// Whether position `i` holds the quote that ends an attribute value: one
/// followed by a space, `>` or `/` (a code block's info string is written
/// unescaped and may hold other quotes).
pub open spec fn ends_value(s: Seq<char>, i: int) -> bool {
    0 <= i && i + 1 < s.len() && s[i] == '"' && (s[i + 1] == ' ' || s[i + 1] == '>' || s[i + 1] == '/')
}

/// The first position at or after `i` that ends an attribute value (or the end).
pub open spec fn scan_value(s: Seq<char>, i: int) -> int
    decreases s.len() - i,
{
    if 0 <= i < s.len() && !ends_value(s, i) {
        scan_value(s, i + 1)
    } else {
        i
    }
}

pub open spec fn ent_quot() -> Seq<char> { seq!['&', 'q', 'u', 'o', 't', ';'] }
pub open spec fn ent_amp() -> Seq<char> { seq!['&', 'a', 'm', 'p', ';'] }
pub open spec fn ent_lt() -> Seq<char> { seq!['&', 'l', 't', ';'] }
pub open spec fn ent_gt() -> Seq<char> { seq!['&', 'g', 't', ';'] }

/// `t` with the entities `&quot;`, `&amp;`, `&lt;` and `&gt;` replaced by the
/// characters they stand for.
pub open spec fn unescape(t: Seq<char>) -> Seq<char>
    decreases t.len(),
{
    if t.len() == 0 {
        Seq::empty()
    } else if occurs_at(t, ent_quot(), 0) {
        seq!['"'] + unescape(t.skip(6))
    } else if occurs_at(t, ent_amp(), 0) {
        seq!['&'] + unescape(t.skip(5))
    } else if occurs_at(t, ent_lt(), 0) {
        seq!['<'] + unescape(t.skip(4))
    } else if occurs_at(t, ent_gt(), 0) {
        seq!['>'] + unescape(t.skip(4))
    } else {
        seq![t[0]] + unescape(t.skip(1))
    }
}

/// What comrak writes right after a code block's info string, which it
/// writes unescaped: the end of the value and the `xml:space` attribute that
/// ends the start tag.
pub open spec fn info_term() -> Seq<char> {
    seq!['"', ' ', 'x', 'm', 'l', ':', 's', 'p', 'a', 'c', 'e', '=', '"', 'p', 'r', 'e', 's', 'e', 'r', 'v', 'e', '"', '>']
}

/// The `math_style` attribute comrak writes before `xml:space` for the info
/// string `math`, with the quote that ends the info string.
pub open spec fn math_tail() -> Seq<char> {
    seq!['"', ' ', 'm', 'a', 't', 'h', '_', 's', 't', 'y', 'l', 'e', '=', '"', 'd', 'i', 's', 'p', 'l', 'a', 'y']
}

/// The key of a code block's info string.
pub open spec fn info_key() -> Seq<char> {
    seq!['i', 'n', 'f', 'o']
}

/// The last position in `from..to` where `info_term()` starts, if any.
pub open spec fn last_term(s: Seq<char>, from: int, to: int) -> Option<int>
    decreases to - from,
{
    if to <= from {
        None
    } else if occurs_at(s, info_term(), to - 1) {
        Some(to - 1)
    } else {
        last_term(s, from, to - 1)
    }
}

/// Where an unescaped info string that starts at `from` ends: at the last
/// `info_term()` on its line (the escaped literal after it holds no quote),
/// or, where the text up to there is `math` followed by `math_tail()`, after
/// `math`.
pub open spec fn info_end(s: Seq<char>, from: int) -> Option<int> {
    match last_term(s, from, scan_until(s, from, '\n')) {
        Some(q) => if q == from + math_info().len() + math_tail().len() && occurs_at(s, math_info() + math_tail(), from) {
            Some(from + math_info().len())
        } else {
            Some(q)
        },
        None => None,
    }
}

/// The info string of a display-math code block, the one comrak writes a
/// `math_style` attribute for.
pub open spec fn math_info() -> Seq<char> {
    seq!['m', 'a', 't', 'h']
}

/// The attributes that start at `i`, and the position after them. The value
/// of an `info` key is taken as it stands, up to `info_end`, where there is
/// one; other values end at `scan_value` and are unescaped.
pub open spec fn parse_attrs(s: Seq<char>, i: int) -> Option<(Seq<(Seq<char>, Seq<char>)>, int)>
    decreases s.len() - i,
{
    if 0 <= i && i + 1 < s.len() && s[i] == ' ' && s[i + 1] != '/' {
        let k_end = scan_name(s, i + 1);
        if k_end > i + 1 && k_end + 1 < s.len() && s[k_end] == '=' && s[k_end + 1] == '"' {
            let key = s.subrange(i + 1, k_end);
            let raw = if key == info_key() { info_end(s, k_end + 2) } else { None };
            let v_end = match raw {
                Some(p) => p,
                None => scan_value(s, k_end + 2),
            };
            if k_end + 2 <= v_end < s.len() {
                match parse_attrs(s, v_end + 1) {
                    Some((rest, j)) => Some(
                        (
                            seq![
                                (
                                    key,
                                    if raw is Some {
                                        s.subrange(k_end + 2, v_end)
                                    } else {
                                        unescape(s.subrange(k_end + 2, v_end))
                                    },
                                ),
                            ] + rest,
                            j,
                        ),
                    ),
                    None => None,
                }
            } else {
                None
            }
        } else {
            None
        }
    } else {
        Some((Seq::empty(), i))
    }
}

/// The closing tag of the element named `name`, with its newline.
pub open spec fn close_tag(name: Seq<char>) -> Seq<char> {
    seq!['<', '/'] + name + seq!['>', '\n']
}

pub open spec fn empty_end() -> Seq<char> {
    seq![' ', '/', '>', '\n']
}

/// The element that starts at `i` (after optional spaces), and the position after it.
pub open spec fn parse_elem(s: Seq<char>, i: int) -> Option<(ElemV, int)>
    decreases s.len() - i, 1int,
{
    let p0 = skip_spaces(s, i);
    if !(0 <= i <= p0 && p0 < s.len() && s[p0] == '<') {
        None
    } else {
        let n_end = scan_name(s, p0 + 1);
        let name = s.subrange(p0 + 1, n_end);
        if n_end <= p0 + 1 {
            None
        } else {
            match parse_attrs(s, n_end) {
                None => None,
                Some((attrs, p1)) => {
                    if p1 < n_end {
                        None
                    } else if occurs_at(s, empty_end(), p1) {
                        Some(
                            (
                                ElemV {
                                    name,
                                    tag: tag_of(name),
                                    attrs,
                                    literal: Seq::empty(),
                                    children: Seq::empty(),
                                },
                                p1 + 4,
                            ),
                        )
                    } else if !(p1 < s.len() && s[p1] == '>') {
                        None
                    } else if attr_of(attrs, "xml:space"@) is Some {
                        let t_end = scan_until(s, p1 + 1, '<');
                        if p1 + 1 <= t_end && occurs_at(s, close_tag(name), t_end) {
                            Some(
                                (
                                    ElemV {
                                        name,
                                        tag: tag_of(name),
                                        attrs,
                                        literal: unescape(s.subrange(p1 + 1, t_end)),
                                        children: Seq::empty(),
                                    },
                                    t_end + close_tag(name).len(),
                                ),
                            )
                        } else {
                            None
                        }
                    } else if !(p1 + 1 < s.len() && s[p1 + 1] == '\n') {
                        None
                    } else {
                        match parse_children(s, p1 + 2) {
                            None => None,
                            Some((children, p2)) => {
                                let p3 = skip_spaces(s, p2);
                                if p2 <= p3 && occurs_at(s, close_tag(name), p3) {
                                    Some(
                                        (
                                            ElemV {
                                                name,
                                                tag: tag_of(name),
                                                attrs,
                                                literal: Seq::empty(),
                                                children,
                                            },
                                            p3 + close_tag(name).len(),
                                        ),
                                    )
                                } else {
                                    None
                                }
                            },
                        }
                    }
                },
            }
        }
    }
}

/// The elements that start at `i`, up to the closing tag of their parent,
/// and the position after the last of them.
pub open spec fn parse_children(s: Seq<char>, i: int) -> Option<(Seq<ElemV>, int)>
    decreases s.len() - i, 2int,
{
    if !(0 <= i <= s.len()) {
        None
    } else if occurs_at(s, seq!['<', '/'], skip_spaces(s, i)) {
        Some((Seq::empty(), i))
    } else {
        match parse_elem(s, i) {
            None => None,
            Some((c, j)) => {
                if j <= i || j > s.len() {
                    None
                } else {
                    match parse_children(s, j) {
                        None => None,
                        Some((rest, k)) => Some((seq![c] + rest, k)),
                    }
                }
            },
        }
    }
}

/// The two header lines of the XML form.
pub open spec fn xml_header() -> Seq<char> {
    "<?xml version=\"1.0\" encoding=\"UTF-8\"?>\n<!DOCTYPE document SYSTEM \"CommonMark.dtd\">\n"@
}

/// The document that `s` is the XML form of, if it is one.
pub open spec fn parse_document(s: Seq<char>) -> Option<ElemV> {
    if occurs_at(s, xml_header(), 0) {
        match parse_elem(s, xml_header().len() as int) {
            Some((e, j)) => if j == s.len() { Some(e) } else { None },
            None => None,
        }
    } else {
        None
    }
}

fn skip_spaces_at(s: &Vec<char>, i: usize) -> (r: usize)
    requires
        i <= s@.len(),
    ensures
        r == skip_spaces(s@, i as int),
        i <= r <= s@.len(),
{
    let mut j = i;
    while j < s.len() && s[j] == ' '
        invariant
            i <= j <= s@.len(),
            skip_spaces(s@, i as int) == skip_spaces(s@, j as int),
        decreases s@.len() - j,
    {
        j += 1;
    }
    j
}

fn scan_name_at(s: &Vec<char>, i: usize) -> (r: usize)
    requires
        i <= s@.len(),
    ensures
        r == scan_name(s@, i as int),
        i <= r <= s@.len(),
{
    let mut j = i;
    while j < s.len() && s[j] != ' ' && s[j] != '>' && s[j] != '/' && s[j] != '<' && s[j] != '='
        && s[j] != '"' && s[j] != '\n'
        invariant
            i <= j <= s@.len(),
            scan_name(s@, i as int) == scan_name(s@, j as int),
        decreases s@.len() - j,
    {
        j += 1;
    }
    j
}

fn scan_until_at(s: &Vec<char>, i: usize, stop: char) -> (r: usize)
    requires
        i <= s@.len(),
    ensures
        r == scan_until(s@, i as int, stop),
        i <= r <= s@.len(),
{
    let mut j = i;
    while j < s.len() && s[j] != stop
        invariant
            i <= j <= s@.len(),
            scan_until(s@, i as int, stop) == scan_until(s@, j as int, stop),
        decreases s@.len() - j,
    {
        j += 1;
    }
    j
}

fn scan_value_at(s: &Vec<char>, i: usize) -> (r: usize)
    requires
        i <= s@.len(),
    ensures
        r == scan_value(s@, i as int),
        i <= r <= s@.len(),
{
    let mut j = i;
    while j < s.len() && !(s[j] == '"' && j + 1 < s.len() && (s[j + 1] == ' ' || s[j + 1] == '>' || s[j + 1] == '/'))
        invariant
            i <= j <= s@.len(),
            scan_value(s@, i as int) == scan_value(s@, j as int),
        decreases s@.len() - j,
    {
        j += 1;
    }
    j
}

/// Whether `p` occurs in `s` at `i` and ends by `b`.
fn occurs_within(s: &Vec<char>, p: &Vec<char>, i: usize, b: usize) -> (r: bool)
    requires
        i <= b <= s@.len(),
    ensures
        r == occurs_at(s@.subrange(i as int, b as int), p@, 0),
{
    if p.len() > b - i {
        return false;
    }
    let r = matches_at(s, p, i);
    assert(s@.subrange(i as int, b as int).subrange(0, p@.len() as int) =~= s@.subrange(
        i as int,
        i + p@.len(),
    ));
    r
}

/// The text `s[a..b]` with its entities replaced by the characters they stand for.
fn unescape_range(s: &Vec<char>, a: usize, b: usize) -> (r: String)
    requires
        a <= b <= s@.len(),
    ensures
        r@ == unescape(s@.subrange(a as int, b as int)),
{
    let quot = vec!['&', 'q', 'u', 'o', 't', ';'];
    let amp = vec!['&', 'a', 'm', 'p', ';'];
    let lt = vec!['&', 'l', 't', ';'];
    let gt = vec!['&', 'g', 't', ';'];
    assert(quot@ == ent_quot());
    assert(amp@ == ent_amp());
    assert(lt@ == ent_lt());
    assert(gt@ == ent_gt());
    let mut r = String::new();
    let mut i = a;
    while i < b
        invariant
            a <= i <= b <= s@.len(),
            quot@ == ent_quot(),
            amp@ == ent_amp(),
            lt@ == ent_lt(),
            gt@ == ent_gt(),
            unescape(s@.subrange(a as int, b as int)) == r@ + unescape(
                s@.subrange(i as int, b as int),
            ),
        decreases b - i,
    {
        let ghost t = s@.subrange(i as int, b as int);
        let ghost r0 = r@;
        if occurs_within(s, &quot, i, b) {
            push_char(&mut r, '"');
            assert(t.skip(6) =~= s@.subrange(i + 6, b as int));
            i += 6;
        } else if occurs_within(s, &amp, i, b) {
            push_char(&mut r, '&');
            assert(t.skip(5) =~= s@.subrange(i + 5, b as int));
            i += 5;
        } else if occurs_within(s, &lt, i, b) {
            push_char(&mut r, '<');
            assert(t.skip(4) =~= s@.subrange(i + 4, b as int));
            i += 4;
        } else if occurs_within(s, &gt, i, b) {
            push_char(&mut r, '>');
            assert(t.skip(4) =~= s@.subrange(i + 4, b as int));
            i += 4;
        } else {
            push_char(&mut r, s[i]);
            assert(t.skip(1) =~= s@.subrange(i + 1, b as int));
            assert(t[0] == s@[i as int]);
            i += 1;
        }
        assert(r@ =~= r0 + (r@.subrange(r0.len() as int, r@.len() as int)));
    }
    assert(s@.subrange(i as int, b as int) =~= Seq::<char>::empty());
    assert(r@ + Seq::<char>::empty() =~= r@);
    r
}

fn last_term_at(s: &Vec<char>, term: &Vec<char>, from: usize, to: usize) -> (r: Option<usize>)
    requires
        from <= to <= s@.len(),
        term@ == info_term(),
    ensures
        match r {
            Some(p) => last_term(s@, from as int, to as int) == Some(p as int),
            None => last_term(s@, from as int, to as int) is None,
        },
{
    let mut t = to;
    while t > from
        invariant
            from <= t <= to <= s@.len(),
            term@ == info_term(),
            last_term(s@, from as int, to as int) == last_term(s@, from as int, t as int),
        decreases t,
    {
        if matches_at(s, term, t - 1) {
            return Some(t - 1);
        }
        t -= 1;
    }
    None
}

fn info_end_at(s: &Vec<char>, from: usize) -> (r: Option<usize>)
    requires
        from <= s@.len(),
    ensures
        match r {
            Some(p) => info_end(s@, from as int) == Some(p as int) && from <= p < s@.len(),
            None => info_end(s@, from as int) is None,
        },
{
    let term = vec!['"', ' ', 'x', 'm', 'l', ':', 's', 'p', 'a', 'c', 'e', '=', '"', 'p', 'r', 'e', 's', 'e', 'r', 'v', 'e', '"', '>'];
    let tail = vec!['m', 'a', 't', 'h', '"', ' ', 'm', 'a', 't', 'h', '_', 's', 't', 'y', 'l', 'e', '=', '"', 'd', 'i', 's', 'p', 'l', 'a', 'y'];
    assert(term@ == info_term());
    assert(tail@ =~= math_info() + math_tail());
    let line_end = scan_until_at(s, from, '\n');
    match last_term_at(s, &term, from, line_end) {
        Some(q) => {
            proof {
                lemma_last_term_range(s@, from as int, line_end as int);
            }
            if q - from == 25 && matches_at(s, &tail, from) {
                Some(from + 4)
            } else {
                Some(q)
            }
        },
        None => None,
    }
}

/// Where `last_term` finds a position, it lies in its range and the term fits.
proof fn lemma_last_term_range(s: Seq<char>, from: int, to: int)
    ensures
        match last_term(s, from, to) {
            Some(q) => from <= q < to && occurs_at(s, info_term(), q),
            None => true,
        },
    decreases to - from,
{
    if to > from && !occurs_at(s, info_term(), to - 1) {
        lemma_last_term_range(s, from, to - 1);
    }
}

fn parse_attrs_at(s: &Vec<char>, i: usize) -> (r: Option<(Vec<Attr>, usize)>)
    requires
        i <= s@.len(),
    ensures
        match r {
            Some((a, j)) => parse_attrs(s@, i as int) == Some((attrs_view(a@), j as int))
                && j <= s@.len(),
            None => parse_attrs(s@, i as int) is None,
        },
    decreases s@.len() - i,
{
    if i < s.len() && i + 1 < s.len() && s[i] == ' ' && s[i + 1] != '/' {
        let k_end = scan_name_at(s, i + 1);
        if k_end > i + 1 && k_end < s.len() && k_end + 1 < s.len() && s[k_end] == '=' && s[k_end + 1] == '"' {
            let ghost key_v = s@.subrange(i + 1, k_end as int);
            let is_info = k_end - i == 5 && s[i + 1] == 'i' && s[i + 2] == 'n' && s[i + 3] == 'f' && s[i + 4] == 'o';
            assert(is_info == (key_v == info_key())) by {
                if key_v == info_key() {
                    assert(key_v.len() == 4);
                    assert(key_v[0] == s@[i + 1] && key_v[1] == s@[i + 2] && key_v[2] == s@[i + 3] && key_v[3] == s@[i + 4]);
                }
                if is_info {
                    assert(key_v =~= info_key());
                }
            }
            let raw = if is_info { info_end_at(s, k_end + 2) } else { None };
            let v_end = match raw {
                Some(p) => p,
                None => scan_value_at(s, k_end + 2),
            };
            if v_end < s.len() {
                match parse_attrs_at(s, v_end + 1) {
                    Some((rest, j)) => {
                        let key = string_of_range(s, i + 1, k_end);
                        let value = match raw {
                            Some(_) => string_of_range(s, k_end + 2, v_end),
                            None => unescape_range(s, k_end + 2, v_end),
                        };
                        let ghost val_v = value@;
                        let mut v: Vec<Attr> = Vec::new();
                        v.push(Attr { key, value });
                        let ghost rv = rest@;
                        let mut rest = rest;
                        v.append(&mut rest);
                        assert(attrs_view(v@) =~= seq![(key_v, val_v)] + attrs_view(rv));
                        Some((v, j))
                    },
                    None => None,
                }
            } else {
                None
            }
        } else {
            None
        }
    } else {
        let v: Vec<Attr> = Vec::new();
        assert(attrs_view(v@) =~= Seq::<(Seq<char>, Seq<char>)>::empty());
        Some((v, i))
    }
}

/// The closing tag of the element named `name`.
fn close_tag_of(name: &Vec<char>) -> (t: Vec<char>)
    ensures
        t@ == close_tag(name@),
{
    let mut t = vec!['<', '/'];
    let mut k: usize = 0;
    while k < name.len()
        invariant
            k <= name@.len(),
            t@ == seq!['<', '/'] + name@.take(k as int),
        decreases name@.len() - k,
    {
        t.push(name[k]);
        k += 1;
        assert(t@ =~= seq!['<', '/'] + name@.take(k as int));
    }
    t.push('>');
    t.push('\n');
    assert(name@.take(k as int) =~= name@);
    assert(t@ =~= close_tag(name@));
    t
}

fn sub_chars(s: &Vec<char>, a: usize, b: usize) -> (v: Vec<char>)
    requires
        a <= b <= s@.len(),
    ensures
        v@ == s@.subrange(a as int, b as int),
{
    let mut v: Vec<char> = Vec::new();
    let mut k = a;
    while k < b
        invariant
            a <= k <= b <= s@.len(),
            v@ == s@.subrange(a as int, k as int),
        decreases b - k,
    {
        v.push(s[k]);
        k += 1;
        assert(v@ =~= s@.subrange(a as int, k as int));
    }
    v
}

fn parse_elem_at(s: &Vec<char>, i: usize) -> (r: Option<(Elem, usize)>)
    requires
        i <= s@.len(),
    ensures
        match r {
            Some((e, j)) => parse_elem(s@, i as int) == Some((e@, j as int)) && j <= s@.len(),
            None => parse_elem(s@, i as int) is None,
        },
    decreases s@.len() - i, 1int,
{
    let p0 = skip_spaces_at(s, i);
    if !(p0 < s.len() && s[p0] == '<') {
        return None;
    }
    let n_end = scan_name_at(s, p0 + 1);
    if n_end <= p0 + 1 {
        return None;
    }
    let name = sub_chars(s, p0 + 1, n_end);
    let tag = tag_from_name(&name);
    let name_str = string_of_range(s, p0 + 1, n_end);
    let (attrs, p1) = match parse_attrs_at(s, n_end) {
        None => return None,
        Some(x) => x,
    };
    let ghost av = attrs_view(attrs@);
    proof {
        lemma_parse_attrs_advances(s@, n_end as int);
    }
    let empty_end_v = vec![' ', '/', '>', '\n'];
    assert(empty_end_v@ == empty_end());
    if matches_at(s, &empty_end_v, p1) {
        let e = Elem { name: name_str, tag, attrs, literal: String::new(), children: Vec::new() };
        assert(e@.children =~= Seq::<ElemV>::empty());
        assert(e@ == (ElemV { name: name@, tag: tag_of(name@), attrs: av, literal: Seq::empty(), children: Seq::empty() }));
        return Some((e, p1 + 4));
    }
    if !(p1 < s.len() && s[p1] == '>') {
        return None;
    }
    let close = close_tag_of(&name);
    if attr_value(&attrs, "xml:space").is_some() {
        let t_end = scan_until_at(s, p1 + 1, '<');
        if matches_at(s, &close, t_end) {
            let literal = unescape_range(s, p1 + 1, t_end);
            let e = Elem { name: name_str, tag, attrs, literal, children: Vec::new() };
            assert(e@.children =~= Seq::<ElemV>::empty());
            return Some((e, t_end + close.len()));
        } else {
            return None;
        }
    }
    if !(p1 + 1 < s.len() && s[p1 + 1] == '\n') {
        return None;
    }
    let (children, p2) = match parse_children_at(s, p1 + 2) {
        None => return None,
        Some(x) => x,
    };
    let p3 = skip_spaces_at(s, p2);
    if matches_at(s, &close, p3) {
        let e = Elem { name: name_str, tag, attrs, literal: String::new(), children };
        Some((e, p3 + close.len()))
    } else {
        None
    }
}

proof fn lemma_parse_attrs_advances(s: Seq<char>, i: int)
    requires
        0 <= i,
    ensures
        parse_attrs(s, i) matches Some((_, j)) ==> i <= j,
    decreases s.len() - i,
{
    if 0 <= i && i + 1 < s.len() && s[i] == ' ' && s[i + 1] != '/' {
        let k_end = scan_name(s, i + 1);
        if k_end > i + 1 && k_end + 1 < s.len() && s[k_end] == '=' && s[k_end + 1] == '"' {
            let key = s.subrange(i + 1, k_end);
            let raw = if key == info_key() { info_end(s, k_end + 2) } else { None };
            let v_end = match raw {
                Some(p) => p,
                None => scan_value(s, k_end + 2),
            };
            if k_end + 2 <= v_end < s.len() {
                lemma_parse_attrs_advances(s, v_end + 1);
            }
        }
    }
}

fn parse_children_at(s: &Vec<char>, i: usize) -> (r: Option<(Vec<Elem>, usize)>)
    requires
        i <= s@.len(),
    ensures
        match r {
            Some((c, j)) => parse_children(s@, i as int) == Some((elems_view(c@), j as int))
                && j <= s@.len(),
            None => parse_children(s@, i as int) is None,
        },
    decreases s@.len() - i, 2int,
{
    let open_close = vec!['<', '/'];
    let mut acc: Vec<Elem> = Vec::new();
    let mut k = i;
    loop
        invariant
            i <= k <= s@.len(),
            open_close@ == seq!['<', '/'],
            parse_children(s@, i as int) == match parse_children(s@, k as int) {
                Some((rest, m)) => Some((elems_view(acc@) + rest, m)),
                None => None,
            },
        decreases s@.len() - k,
    {
        let p = skip_spaces_at(s, k);
        if matches_at(s, &open_close, p) {
            assert(elems_view(acc@) + Seq::<ElemV>::empty() =~= elems_view(acc@));
            return Some((acc, k));
        }
        match parse_elem_at(s, k) {
            None => return None,
            Some((c, j)) => {
                if j <= k {
                    return None;
                }
                let ghost cv = c@;
                let ghost accv = elems_view(acc@);
                proof {
                    lemma_elems_view_push(acc@, c);
                    match parse_children(s@, j as int) {
                        Some((rest, m)) => {
                            assert(accv + (seq![cv] + rest) =~= accv.push(cv) + rest);
                        },
                        None => {},
                    }
                }
                acc.push(c);
                k = j;
            },
        }
    }
}

/// Reads the XML form of a document.
pub fn decode_document(xml: &str) -> (r: Option<Elem>)
    ensures
        match r {
            Some(e) => parse_document(xml@) == Some(e@),
            None => parse_document(xml@) is None,
        },
{
    let s = chars_of(xml);
    let header = chars_of(
        "<?xml version=\"1.0\" encoding=\"UTF-8\"?>\n<!DOCTYPE document SYSTEM \"CommonMark.dtd\">\n",
    );
    if !matches_at(&s, &header, 0) {
        return None;
    }
    match parse_elem_at(&s, header.len()) {
        Some((e, j)) => {
            if j == s.len() {
                Some(e)
            } else {
                None
            }
        },
        None => None,
    }
}

/// The escaped form of one character in the XML form.
pub open spec fn escape_char(c: char) -> Seq<char> {
    if c == '"' {
        ent_quot()
    } else if c == '&' {
        ent_amp()
    } else if c == '<' {
        ent_lt()
    } else if c == '>' {
        ent_gt()
    } else {
        seq![c]
    }
}

/// `t` with `"`, `&`, `<` and `>` written as entities.
pub open spec fn escape(t: Seq<char>) -> Seq<char>
    decreases t.len(),
{
    if t.len() == 0 {
        Seq::empty()
    } else {
        escape_char(t[0]) + escape(t.drop_first())
    }
}

/// The attributes as written: ` key="value"` each, values escaped but for a
/// code block's info string, which is written as it stands.
pub open spec fn print_attrs(a: Seq<(Seq<char>, Seq<char>)>) -> Seq<char>
    decreases a.len(),
{
    if a.len() == 0 {
        Seq::empty()
    } else {
        seq![' '] + a[0].0 + seq!['=', '"'] + (if a[0].0 == info_key() { a[0].1 } else { escape(a[0].1) })
            + seq!['"'] + print_attrs(a.drop_first())
    }
}

/// The indentation of an element at the given depth: two spaces a level, at most 40.
pub open spec fn indent(depth: nat) -> Seq<char> {
    Seq::new(if 2 * depth <= 40 { 2 * depth } else { 40 }, |i: int| ' ')
}

/// Whether an element holds literal text (it has an `xml:space` attribute).
pub open spec fn is_literal(e: ElemV) -> bool {
    attr_of(e.attrs, "xml:space"@) is Some
}

/// An element written in the XML form at the given depth.
pub open spec fn print_elem(e: ElemV, depth: nat) -> Seq<char>
    decreases e,
{
    indent(depth) + seq!['<'] + e.name + print_attrs(e.attrs) + if is_literal(e) {
        seq!['>'] + escape(e.literal) + close_tag(e.name)
    } else if e.children.len() == 0 {
        empty_end()
    } else {
        seq!['>', '\n'] + print_children(e.children, depth + 1) + indent(depth) + close_tag(e.name)
    }
}

/// Elements written one after another at the given depth.
pub open spec fn print_children(c: Seq<ElemV>, depth: nat) -> Seq<char>
    decreases c,
{
    if c.len() == 0 {
        Seq::empty()
    } else {
        print_elem(c[0], depth) + print_children(c.drop_first(), depth)
    }
}

/// A document written in the XML form.
pub open spec fn print_document(e: ElemV) -> Seq<char> {
    xml_header() + print_elem(e, 0)
}

/// Whether `x` is the XML form of some well-formed document tree.
pub open spec fn is_xml_form(x: Seq<char>) -> bool {
    exists|d: ElemV| wf_elem(d) && #[trigger] print_document(d) == x
}

/// A name: one or more name characters.
pub open spec fn is_name(n: Seq<char>) -> bool {
    n.len() > 0 && forall|i: int| 0 <= i < n.len() ==> is_name_char(#[trigger] n[i])
}

pub open spec fn wf_attrs(a: Seq<(Seq<char>, Seq<char>)>) -> bool {
    forall|i: int| 0 <= i < a.len() ==> is_name(#[trigger] a[i].0) && a[i].0 != info_key()
}

/// An element the XML form can hold: names and keys made of name
/// characters, the kind its name stands for, literal text only in literal
/// elements, which have no children.
pub open spec fn wf_elem(e: ElemV) -> bool
    decreases e,
{
    &&& is_name(e.name)
    &&& e.tag == tag_of(e.name)
    &&& (wf_attrs(e.attrs) || (code_attrs(e.attrs) && is_literal(e)))
    &&& if is_literal(e) { e.children.len() == 0 } else { e.literal.len() == 0 }
    &&& wf_children(e.children)
}

pub open spec fn wf_children(c: Seq<ElemV>) -> bool
    decreases c,
{
    c.len() > 0 ==> wf_elem(c[0]) && wf_children(c.drop_first())
}

proof fn lemma_occurs_split(s: Seq<char>, i: int, a: Seq<char>, b: Seq<char>)
    requires
        occurs_at(s, a + b, i),
    ensures
        occurs_at(s, a, i),
        occurs_at(s, b, i + a.len()),
{
    let w = s.subrange(i, i + (a + b).len());
    assert(w == a + b);
    assert(s.subrange(i, i + a.len()) =~= w.subrange(0, a.len() as int));
    assert(w.subrange(0, a.len() as int) =~= a);
    assert(s.subrange(i + a.len(), i + a.len() + b.len()) =~= w.subrange(a.len() as int, w.len() as int));
    assert(w.subrange(a.len() as int, w.len() as int) =~= b);
}

proof fn lemma_occurs_index(s: Seq<char>, i: int, a: Seq<char>, j: int)
    requires
        occurs_at(s, a, i),
        0 <= j < a.len(),
    ensures
        s[i + j] == a[j],
{
    assert(s.subrange(i, i + a.len())[j] == s[i + j]);
}

proof fn lemma_skip_spaces(s: Seq<char>, i: int, n: int)
    requires
        0 <= i,
        0 <= n,
        i + n < s.len(),
        forall|j: int| i <= j < i + n ==> s[j] == ' ',
        s[i + n] != ' ',
    ensures
        skip_spaces(s, i) == i + n,
    decreases n,
{
    if n > 0 {
        lemma_skip_spaces(s, i + 1, n - 1);
    }
}

proof fn lemma_scan_name(s: Seq<char>, i: int, n: int)
    requires
        0 <= i,
        0 <= n,
        i + n < s.len(),
        forall|j: int| i <= j < i + n ==> is_name_char(s[j]),
        !is_name_char(s[i + n]),
    ensures
        scan_name(s, i) == i + n,
    decreases n,
{
    if n > 0 {
        lemma_scan_name(s, i + 1, n - 1);
    }
}

proof fn lemma_scan_value(s: Seq<char>, i: int, n: int)
    requires
        0 <= i,
        0 <= n,
        i + n < s.len(),
        forall|j: int| i <= j < i + n ==> s[j] != '"',
        ends_value(s, i + n),
    ensures
        scan_value(s, i) == i + n,
    decreases n,
{
    if n > 0 {
        lemma_scan_value(s, i + 1, n - 1);
    }
}

proof fn lemma_scan_until(s: Seq<char>, i: int, n: int, stop: char)
    requires
        0 <= i,
        0 <= n,
        i + n < s.len(),
        forall|j: int| i <= j < i + n ==> s[j] != stop,
        s[i + n] == stop,
    ensures
        scan_until(s, i, stop) == i + n,
    decreases n,
{
    if n > 0 {
        lemma_scan_until(s, i + 1, n - 1, stop);
    }
}

/// Escaped text holds no quote and no `<`.
proof fn lemma_escape_plain(t: Seq<char>)
    ensures
        forall|j: int| 0 <= j < escape(t).len() ==> escape(t)[j] != '"' && escape(t)[j] != '<',
    decreases t.len(),
{
    if t.len() > 0 {
        lemma_escape_plain(t.drop_first());
        let a = escape_char(t[0]);
        let b = escape(t.drop_first());
        assert forall|j: int| 0 <= j < (a + b).len() implies (a + b)[j] != '"' && (a + b)[j] != '<' by {
            if j >= a.len() {
                assert((a + b)[j] == b[j - a.len()]);
            }
        }
    }
}

/// Reading the entities back gives the text that was escaped.
proof fn lemma_unescape_escape(t: Seq<char>)
    ensures
        unescape(escape(t)) == t,
    decreases t.len(),
{
    if t.len() > 0 {
        lemma_unescape_escape(t.drop_first());
        let a = escape_char(t[0]);
        let b = escape(t.drop_first());
        let w = a + b;
        assert(w.skip(a.len() as int) =~= b);
        if t[0] == '"' {
            assert(w.subrange(0, 6) =~= ent_quot());
        } else if t[0] == '&' {
            assert(w.subrange(0, 5) =~= ent_amp());
            assert(!occurs_at(w, ent_quot(), 0)) by {
                if occurs_at(w, ent_quot(), 0) {
                    assert(w.subrange(0, 6)[1] == 'q');
                }
            }
        } else if t[0] == '<' {
            assert(w.subrange(0, 4) =~= ent_lt());
            assert(!occurs_at(w, ent_quot(), 0)) by {
                if occurs_at(w, ent_quot(), 0) {
                    assert(w.subrange(0, 6)[1] == 'q');
                }
            }
            assert(!occurs_at(w, ent_amp(), 0)) by {
                if occurs_at(w, ent_amp(), 0) {
                    assert(w.subrange(0, 5)[1] == 'a');
                }
            }
        } else if t[0] == '>' {
            assert(w.subrange(0, 4) =~= ent_gt());
            assert(!occurs_at(w, ent_quot(), 0)) by {
                if occurs_at(w, ent_quot(), 0) {
                    assert(w.subrange(0, 6)[1] == 'q');
                }
            }
            assert(!occurs_at(w, ent_amp(), 0)) by {
                if occurs_at(w, ent_amp(), 0) {
                    assert(w.subrange(0, 5)[1] == 'a');
                }
            }
            assert(!occurs_at(w, ent_lt(), 0)) by {
                if occurs_at(w, ent_lt(), 0) {
                    assert(w.subrange(0, 4)[1] == 'l');
                }
            }
        } else {
            assert(w[0] == t[0]);
            assert(!occurs_at(w, ent_quot(), 0)) by {
                if occurs_at(w, ent_quot(), 0) {
                    assert(w.subrange(0, 6)[0] == '&');
                }
            }
            assert(!occurs_at(w, ent_amp(), 0)) by {
                if occurs_at(w, ent_amp(), 0) {
                    assert(w.subrange(0, 5)[0] == '&');
                }
            }
            assert(!occurs_at(w, ent_lt(), 0)) by {
                if occurs_at(w, ent_lt(), 0) {
                    assert(w.subrange(0, 4)[0] == '&');
                }
            }
            assert(!occurs_at(w, ent_gt(), 0)) by {
                if occurs_at(w, ent_gt(), 0) {
                    assert(w.subrange(0, 4)[0] == '&');
                }
            }
            assert(seq![t[0]] + t.drop_first() =~= t);
        }
        assert(seq![t[0]] + t.drop_first() =~= t);
    }
}

proof fn lemma_occurs_all(s: Seq<char>, i: int, x: Seq<char>)
    requires
        occurs_at(s, x, i),
    ensures
        forall|t: int| 0 <= t < x.len() ==> s[i + t] == #[trigger] x[t],
{
    assert forall|t: int| 0 <= t < x.len() implies s[i + t] == #[trigger] x[t] by {
        lemma_occurs_index(s, i, x, t);
    }
}

proof fn lemma_parse_printed_attrs(s: Seq<char>, i: int, a: Seq<(Seq<char>, Seq<char>)>)
    requires
        wf_attrs(a),
        occurs_at(s, print_attrs(a), i),
        i + print_attrs(a).len() < s.len(),
        s[i + print_attrs(a).len()] == '>' || (s[i + print_attrs(a).len()] == ' ' && i
            + print_attrs(a).len() + 1 < s.len() && s[i + print_attrs(a).len() + 1] == '/'),
    ensures
        parse_attrs(s, i) == Some((a, i + print_attrs(a).len())),
    decreases a.len(),
{
    let j = i + print_attrs(a).len();
    if a.len() == 0 {
        assert(a =~= Seq::<(Seq<char>, Seq<char>)>::empty());
    } else {
        let key = a[0].0;
        let v = a[0].1;
        let ev = escape(v);
        let tail = a.drop_first();
        let rest = print_attrs(tail);
        let head = seq![' '] + key + seq!['=', '"'] + ev + seq!['"'];
        assert(print_attrs(a) == head + rest);
        lemma_occurs_split(s, i, head, rest);
        lemma_occurs_all(s, i, head);
        assert(is_name(key));
        let k_end = i + 1 + key.len();
        let v_end = k_end + 2 + ev.len();
        assert(head.len() == v_end + 1 - i);
        assert(s[i] == head[0]);
        assert(s[i + 1] == head[1]);
        assert(head[1] == key[0]);
        assert forall|t: int| i + 1 <= t < k_end implies is_name_char(s[t]) by {
            assert(s[i + (t - i)] == head[t - i]);
            assert(head[t - i] == key[t - i - 1]);
        }
        assert(s[i + (k_end - i)] == head[k_end - i]);
        assert(s[i + (k_end + 1 - i)] == head[k_end + 1 - i]);
        lemma_scan_name(s, i + 1, key.len() as int);
        lemma_escape_plain(v);
        assert forall|t: int| k_end + 2 <= t < v_end implies s[t] != '"' by {
            assert(s[i + (t - i)] == head[t - i]);
            assert(head[t - i] == ev[t - k_end - 2]);
        }
        assert(s[i + (v_end - i)] == head[v_end - i]);
        if tail.len() > 0 {
            lemma_occurs_all(s, v_end + 1, rest);
            assert(rest[0] == ' ');
            assert(s[v_end + 1 + 0] == rest[0]);
        } else {
            assert(rest.len() == 0);
            assert(v_end + 1 == j);
        }
        assert(ends_value(s, v_end));
        lemma_scan_value(s, k_end + 2, ev.len() as int);
        assert(wf_attrs(tail)) by {
            assert forall|t: int| 0 <= t < tail.len() implies is_name(#[trigger] tail[t].0) && tail[t].0 != info_key() by {
                assert(tail[t] == a[t + 1]);
            }
        }
        lemma_parse_printed_attrs(s, v_end + 1, tail);
        lemma_unescape_escape(v);
        assert(s.subrange(i + 1, k_end) =~= key) by {
            assert forall|t: int| 0 <= t < key.len() implies s.subrange(i + 1, k_end)[t] == key[t] by {
                assert(s[i + (t + 1)] == head[t + 1]);
            }
        }
        assert(s.subrange(k_end + 2, v_end) =~= ev) by {
            assert forall|t: int| 0 <= t < ev.len() implies s.subrange(k_end + 2, v_end)[t] == ev[t] by {
                assert(s[i + (k_end + 2 + t - i)] == head[k_end + 2 + t - i]);
            }
        }
        assert(seq![(key, v)] + tail =~= a);
    }
}

proof fn lemma_occurs_sub(s: Seq<char>, i: int, x: Seq<char>, a: int, b: int)
    requires
        occurs_at(s, x, i),
        0 <= a <= b <= x.len(),
    ensures
        s.subrange(i + a, i + b) == x.subrange(a, b),
{
    lemma_occurs_all(s, i, x);
    assert(s.subrange(i + a, i + b) =~= x.subrange(a, b)) by {
        assert forall|t: int| 0 <= t < b - a implies s.subrange(i + a, i + b)[t] == x.subrange(a, b)[t] by {
            assert(s[i + (a + t)] == x[a + t]);
        }
    }
}

proof fn lemma_children_tail(c: Seq<ElemV>)
    requires
        wf_children(c),
        c.len() > 0,
    ensures
        wf_elem(c[0]),
        wf_children(c.drop_first()),
{
}

/// What follows the attributes of an element in the XML form.
pub open spec fn elem_tail(e: ElemV, depth: nat) -> Seq<char> {
    if is_literal(e) {
        seq!['>'] + escape(e.literal) + close_tag(e.name)
    } else if e.children.len() == 0 {
        empty_end()
    } else {
        seq!['>', '\n'] + print_children(e.children, depth + 1) + indent(depth) + close_tag(e.name)
    }
}

/// The `xml:space` attribute of a literal element.
pub open spec fn xml_space_attr() -> (Seq<char>, Seq<char>) {
    (seq!['x', 'm', 'l', ':', 's', 'p', 'a', 'c', 'e'], seq!['p', 'r', 'e', 's', 'e', 'r', 'v', 'e'])
}

/// The `math_style` attribute of a display-math code block.
pub open spec fn math_style_attr() -> (Seq<char>, Seq<char>) {
    (seq!['m', 'a', 't', 'h', '_', 's', 't', 'y', 'l', 'e'], seq!['d', 'i', 's', 'p', 'l', 'a', 'y'])
}

pub open spec fn xs_print() -> Seq<char> {
    seq![' ', 'x', 'm', 'l', ':', 's', 'p', 'a', 'c', 'e', '=', '"', 'p', 'r', 'e', 's', 'e', 'r', 'v', 'e', '"']
}

pub open spec fn ms_print() -> Seq<char> {
    seq![' ', 'm', 'a', 't', 'h', '_', 's', 't', 'y', 'l', 'e', '=', '"', 'd', 'i', 's', 'p', 'l', 'a', 'y', '"']
}

/// The attributes comrak writes for a code block with an info string: the
/// info string, on one line, then `xml:space`, with `math_style` between them
/// for the info string `math`. The info string `math" math_style="display` is
/// left out: comrak writes it as it writes display math.
pub open spec fn code_attrs(a: Seq<(Seq<char>, Seq<char>)>) -> bool {
    &&& a.len() >= 2
    &&& a[0].0 == info_key()
    &&& forall|i: int| 0 <= i < a[0].1.len() ==> #[trigger] a[0].1[i] != '\n'
    &&& a[0].1 != math_info() + math_tail()
    &&& (a.drop_first() == seq![xml_space_attr()] || (a.drop_first() == seq![math_style_attr(), xml_space_attr()]
        && a[0].1 == math_info()))
}

proof fn lemma_escape_id(t: Seq<char>)
    requires
        forall|i: int| 0 <= i < t.len() ==> #[trigger] t[i] != '"' && t[i] != '&' && t[i] != '<' && t[i] != '>',
    ensures
        escape(t) == t,
    decreases t.len(),
{
    if t.len() > 0 {
        assert forall|i: int| 0 <= i < t.drop_first().len() implies #[trigger] t.drop_first()[i] != '"' && t.drop_first()[i] != '&'
            && t.drop_first()[i] != '<' && t.drop_first()[i] != '>' by {
            assert(t.drop_first()[i] == t[i + 1]);
        }
        lemma_escape_id(t.drop_first());
        assert(escape_char(t[0]) == seq![t[0]]);
        assert(seq![t[0]] + t.drop_first() =~= t);
    }
}

proof fn lemma_code_attrs_printed(a: Seq<(Seq<char>, Seq<char>)>)
    requires
        code_attrs(a),
    ensures
        wf_attrs(a.drop_first()),
        print_attrs(a.drop_first()) == if a.drop_first().len() == 1 { xs_print() } else { ms_print() + xs_print() },
        print_attrs(a) == seq![' '] + info_key() + seq!['=', '"'] + a[0].1 + seq!['"'] + print_attrs(a.drop_first()),
{
    let rest = a.drop_first();
    let xs = xml_space_attr();
    let ms = math_style_attr();
    lemma_escape_id(xs.1);
    lemma_escape_id(ms.1);
    assert(xs.0 != info_key());
    assert(ms.0 != info_key());
    let one = seq![xs];
    assert(one.drop_first() =~= Seq::<(Seq<char>, Seq<char>)>::empty());
    assert(print_attrs(one.drop_first()) == Seq::<char>::empty());
    assert(print_attrs(one) =~= xs_print());
    assert(forall|t: int| 0 <= t < xs.0.len() ==> is_name_char(#[trigger] xs.0[t]));
    assert(forall|t: int| 0 <= t < ms.0.len() ==> is_name_char(#[trigger] ms.0[t]));
    if rest.len() == 2 {
        let two = seq![ms, xs];
        assert(two.drop_first() =~= one);
        assert(two[0] == ms);
        assert(print_attrs(two) =~= ms_print() + xs_print());
        assert(rest == two);
    } else {
        assert(rest == one);
    }
}

proof fn lemma_scan_until_props(s: Seq<char>, i: int, c: char)
    requires
        0 <= i <= s.len(),
    ensures
        i <= scan_until(s, i, c) <= s.len(),
        forall|p: int| i <= p < scan_until(s, i, c) ==> s[p] != c,
        scan_until(s, i, c) < s.len() ==> s[scan_until(s, i, c)] == c,
    decreases s.len() - i,
{
    if i < s.len() && s[i] != c {
        lemma_scan_until_props(s, i + 1, c);
    }
}

proof fn lemma_last_term_is(s: Seq<char>, from: int, to: int, q: int)
    requires
        from <= q < to,
        occurs_at(s, info_term(), q),
        forall|p: int| q < p < to ==> !#[trigger] occurs_at(s, info_term(), p),
    ensures
        last_term(s, from, to) == Some(q),
    decreases to - from,
{
    if to - 1 > q {
        lemma_last_term_is(s, from, to - 1, q);
    }
}

/// No `info_term()` starts inside one, nor in text without quotes after it.
proof fn lemma_no_term_at(s: Seq<char>, q_t: int, rest: Seq<char>, p: int)
    requires
        0 <= q_t,
        occurs_at(s, info_term() + rest, q_t),
        forall|k: int| 0 <= k < rest.len() ==> #[trigger] rest[k] != '"',
        q_t < p < q_t + 23 + rest.len(),
    ensures
        !occurs_at(s, info_term(), p),
{
    if occurs_at(s, info_term(), p) {
        lemma_occurs_index(s, p, info_term(), 0);
        lemma_occurs_index(s, p, info_term(), 1);
        lemma_occurs_all(s, q_t, info_term() + rest);
        assert(s[q_t + (p - q_t)] == (info_term() + rest)[p - q_t]);
        if p + 1 < q_t + 23 {
            assert(s[q_t + (p + 1 - q_t)] == (info_term() + rest)[p + 1 - q_t]);
        }
    }
}

/// On the line of a code block's info string, the last `info_term()` is the
/// one comrak wrote after it: the escaped text and the closing tag that
/// follow hold no quote.
#[verifier::spinoff_prover]
#[verifier::rlimit(60)]
proof fn lemma_info_line(s: Seq<char>, from: int, q_v: int, m: Seq<char>, lit: Seq<char>, name: Seq<char>)
    requires
        0 <= from <= q_v,
        m == Seq::<char>::empty() || m == math_tail(),
        is_name(name),
        occurs_at(s, m + info_term() + escape(lit) + close_tag(name), q_v),
        forall|p: int| from <= p < q_v ==> s[p] != '\n',
    ensures
        last_term(s, from, scan_until(s, from, '\n')) == Some(q_v + m.len()),
{
    let e = escape(lit);
    let c = close_tag(name);
    let x = m + info_term() + e + c;
    let q_t = q_v + m.len();
    lemma_occurs_all(s, q_v, x);
    assert(x =~= (m + info_term()) + (e + c));
    lemma_occurs_split(s, q_v, m + info_term(), e + c);
    lemma_occurs_split(s, q_v, m, info_term());
    lemma_occurs_all(s, q_t + 23, e + c);
    lemma_escape_plain(lit);
    assert(x =~= m + (info_term() + (e + c)));
    lemma_occurs_split(s, q_v, m, info_term() + (e + c));
    assert forall|k: int| 0 <= k < (e + c).len() implies #[trigger] (e + c)[k] != '"' by {
        if k >= e.len() {
            assert((e + c)[k] == c[k - e.len()]);
        }
    }
    assert forall|p: int| from <= p <= q_t implies s[p] != '\n' by {
        if p >= q_v {
            assert(s[q_v + (p - q_v)] == x[p - q_v]);
        }
    }
    let nl = q_t + 23 + e.len() + c.len() - 1;
    assert(s[q_t + 23 + (e.len() + c.len() - 1)] == (e + c)[e.len() + c.len() - 1]);
    lemma_scan_until_props(s, from, '\n');
    let r = scan_until(s, from, '\n');
    assert(r > q_t);
    assert(r <= nl);
    assert forall|p: int| q_t < p < r implies !#[trigger] occurs_at(s, info_term(), p) by {
        lemma_no_term_at(s, q_t, e + c, p);
    }
    lemma_last_term_is(s, from, r, q_t);
}

/// The attributes comrak writes for a code block, followed by its escaped
/// text and closing tag, are read back as they were: the info string whole.
#[verifier::spinoff_prover]
#[verifier::rlimit(60)]
proof fn lemma_parse_code_attrs(s: Seq<char>, j: int, a: Seq<(Seq<char>, Seq<char>)>, lit: Seq<char>, name: Seq<char>)
    requires
        code_attrs(a),
        is_name(name),
        occurs_at(s, print_attrs(a) + seq!['>'] + escape(lit) + close_tag(name), j),
    ensures
        parse_attrs(s, j) == Some((a, j + print_attrs(a).len())),
{
    lemma_code_attrs_printed(a);
    let v = a[0].1;
    let rest = a.drop_first();
    let pr = print_attrs(rest);
    let math = rest.len() == 2;
    let m = if math { math_tail() } else { Seq::<char>::empty() };
    let e = escape(lit);
    let c = close_tag(name);
    let p1 = seq![' '] + info_key() + seq!['=', '"'] + v;
    let w = print_attrs(a) + seq!['>'] + e + c;
    let y = seq!['"'] + pr + seq!['>'] + e + c;
    assert(w =~= p1 + y);
    assert(y =~= m + info_term() + e + c) by {
        if math {
            assert(seq!['"'] + ms_print() + xs_print() + seq!['>'] =~= math_tail() + info_term());
        } else {
            assert(seq!['"'] + xs_print() + seq!['>'] =~= info_term());
        }
    }
    let from = j + 7;
    let q_v = from + v.len();
    lemma_occurs_split(s, j, p1, y);
    lemma_occurs_all(s, j, p1);
    assert forall|p: int| from <= p < q_v implies s[p] != '\n' by {
        assert(s[j + (p - j)] == p1[p - j]);
        assert(p1[p - j] == v[p - from]);
    }
    lemma_info_line(s, from, q_v, m, lit, name);
    lemma_occurs_sub(s, j, p1, 7, 7 + v.len() as int);
    assert(p1.subrange(7, 7 + v.len() as int) =~= v);
    if math {
        assert(occurs_at(s, math_tail(), q_v)) by {
            assert(y =~= math_tail() + (info_term() + e + c));
            lemma_occurs_split(s, q_v, math_tail(), info_term() + e + c);
        }
        assert(s.subrange(from, from + 25) =~= s.subrange(from, q_v) + s.subrange(q_v, q_v + 21));
        assert(occurs_at(s, math_info() + math_tail(), from));
    } else {
        if q_v == from + 25 && occurs_at(s, math_info() + math_tail(), from) {
            assert(v =~= math_info() + math_tail());
        }
    }
    assert(info_end(s, from) == Some(q_v));
    lemma_occurs_sub(s, j, p1, 7, 7 + v.len() as int);
    assert(p1.subrange(7, 7 + v.len() as int) =~= v);
    lemma_occurs_sub(s, j, p1, 1, 5);
    assert(p1.subrange(1, 5) =~= info_key());
    assert forall|t: int| j + 1 <= t < j + 5 implies is_name_char(s[t]) by {
        assert(s[j + (t - j)] == p1[t - j]);
    }
    assert(s[j + 5] == p1[5]);
    assert(s[j + 6] == p1[6]);
    assert(s[j + 0] == p1[0]);
    assert(s[j + 1] == p1[1]);
    lemma_scan_name(s, j + 1, 4);
    assert(y =~= seq!['"'] + pr + (seq!['>'] + e + c));
    lemma_occurs_split(s, q_v, seq!['"'] + pr, seq!['>'] + e + c);
    lemma_occurs_split(s, q_v, seq!['"'], pr);
    lemma_occurs_index(s, q_v + 1 + pr.len(), seq!['>'] + e + c, 0);
    lemma_parse_printed_attrs(s, q_v + 1, rest);
    assert(print_attrs(a).len() == 7 + v.len() + 1 + pr.len());
    assert(seq![(info_key(), v)] + rest =~= a);
}

/// The start of a written element is read back: its name, its attributes,
/// and where what follows them begins.
proof fn lemma_elem_head(s: Seq<char>, i: int, e: ElemV, depth: nat)
    requires
        wf_elem(e),
        occurs_at(s, print_elem(e, depth), i),
    ensures
        skip_spaces(s, i) == i + indent(depth).len(),
        s[i + indent(depth).len()] == '<',
        scan_name(s, i + indent(depth).len() + 1) == i + indent(depth).len() + 1 + e.name.len(),
        s.subrange(i + indent(depth).len() + 1, i + indent(depth).len() + 1 + e.name.len()) == e.name,
        parse_attrs(s, i + indent(depth).len() + 1 + e.name.len()) == Some(
            (e.attrs, i + indent(depth).len() + 1 + e.name.len() + print_attrs(e.attrs).len()),
        ),
        occurs_at(
            s,
            elem_tail(e, depth),
            i + indent(depth).len() + 1 + e.name.len() + print_attrs(e.attrs).len(),
        ),
        print_elem(e, depth).len() == indent(depth).len() + 1 + e.name.len() + print_attrs(
            e.attrs,
        ).len() + elem_tail(e, depth).len(),
{
    let ind = indent(depth);
    let pa = print_attrs(e.attrs);
    let tail = elem_tail(e, depth);
    let c1 = ind + seq!['<'];
    let c2 = c1 + e.name;
    let c3 = c2 + pa;
    assert(print_elem(e, depth) == c3 + tail);
    lemma_occurs_split(s, i, c3, tail);
    lemma_occurs_split(s, i, c2, pa);
    lemma_occurs_split(s, i, c1, e.name);
    lemma_occurs_split(s, i, ind, seq!['<']);
    lemma_occurs_all(s, i, ind);
    lemma_occurs_all(s, i + ind.len(), seq!['<']);
    lemma_occurs_all(s, i + c3.len(), tail);
    let p0 = i + ind.len();
    assert(s[p0 + 0] == seq!['<'][0]);
    assert forall|t: int| i <= t < i + ind.len() implies s[t] == ' ' by {
        assert(s[i + (t - i)] == ind[t - i]);
    }
    lemma_skip_spaces(s, i, ind.len() as int);
    let n_end = p0 + 1 + e.name.len();
    lemma_occurs_all(s, p0 + 1, e.name);
    assert forall|t: int| p0 + 1 <= t < n_end implies is_name_char(s[t]) by {
        assert(s[(p0 + 1) + (t - p0 - 1)] == e.name[t - p0 - 1]);
    }
    let j = n_end + pa.len();
    assert(j == i + c3.len());
    assert(tail[0] == '>' || tail[0] == ' ');
    assert(s[j + 0] == tail[0]);
    if tail[0] == ' ' {
        assert(tail[1] == '/');
        assert(s[j + 1] == tail[1]);
    }
    assert(!is_name_char(s[n_end])) by {
        if pa.len() > 0 {
            lemma_occurs_all(s, n_end, pa);
            assert(s[n_end + 0] == pa[0]);
        }
    }
    lemma_scan_name(s, p0 + 1, e.name.len() as int);
    lemma_occurs_sub(s, i, c2, c1.len() as int, c2.len() as int);
    assert(c2.subrange(c1.len() as int, c2.len() as int) =~= e.name);
    if wf_attrs(e.attrs) {
        lemma_parse_printed_attrs(s, n_end, e.attrs);
    } else {
        assert(tail == seq!['>'] + escape(e.literal) + close_tag(e.name));
        assert(c3 + tail =~= c2 + (pa + tail));
        lemma_occurs_split(s, i, c2, pa + tail);
        assert(pa + tail =~= print_attrs(e.attrs) + seq!['>'] + escape(e.literal) + close_tag(e.name));
        lemma_parse_code_attrs(s, n_end, e.attrs, e.literal, e.name);
    }
}

/// The literal text of a written literal element is read back, up to its closing tag.
proof fn lemma_literal_tail(s: Seq<char>, j: int, e: ElemV)
    requires
        is_literal(e),
        occurs_at(s, seq!['>'] + escape(e.literal) + close_tag(e.name), j),
    ensures
        !occurs_at(s, empty_end(), j),
        s[j] == '>',
        scan_until(s, j + 1, '<') == j + 1 + escape(e.literal).len(),
        occurs_at(s, close_tag(e.name), j + 1 + escape(e.literal).len()),
        unescape(s.subrange(j + 1, j + 1 + escape(e.literal).len())) == e.literal,
{
    let el = escape(e.literal);
    let ct = close_tag(e.name);
    lemma_occurs_split(s, j, seq!['>'] + el, ct);
    lemma_occurs_split(s, j, seq!['>'], el);
    lemma_occurs_index(s, j, seq!['>'], 0);
    assert(!occurs_at(s, empty_end(), j)) by {
        if occurs_at(s, empty_end(), j) {
            lemma_occurs_index(s, j, empty_end(), 0);
        }
    }
    lemma_escape_plain(e.literal);
    lemma_occurs_all(s, j + 1, el);
    lemma_occurs_index(s, j + 1 + el.len(), ct, 0);
    assert forall|t: int| j + 1 <= t < j + 1 + el.len() implies s[t] != '<' by {
        assert(s[(j + 1) + (t - j - 1)] == el[t - j - 1]);
    }
    lemma_scan_until(s, j + 1, el.len() as int, '<');
    lemma_occurs_sub(s, j, seq!['>'] + el, 1, 1 + el.len() as int);
    assert((seq!['>'] + el).subrange(1, 1 + el.len() as int) =~= el);
    lemma_unescape_escape(e.literal);
}

/// An element written at depth `depth` and followed by anything is read back whole.
proof fn lemma_parse_printed_elem(s: Seq<char>, i: int, e: ElemV, depth: nat)
    requires
        wf_elem(e),
        occurs_at(s, print_elem(e, depth), i),
    ensures
        parse_elem(s, i) == Some((e, i + print_elem(e, depth).len())),
    decreases e, 1int,
{
    lemma_elem_head(s, i, e, depth);
    let ind = indent(depth);
    let n_end = i + ind.len() + 1 + e.name.len();
    let j = n_end + print_attrs(e.attrs).len();
    let tail = elem_tail(e, depth);
    if is_literal(e) {
        lemma_literal_tail(s, j, e);
        assert(e.children =~= Seq::<ElemV>::empty());
    } else if e.children.len() == 0 {
        assert(e.literal =~= Seq::<char>::empty());
        assert(e.children =~= Seq::<ElemV>::empty());
    } else {
        let pc = print_children(e.children, depth + 1);
        let ct = close_tag(e.name);
        let d1 = seq!['>', '\n'] + pc;
        let d2 = d1 + ind;
        assert(tail == d2 + ct);
        assert(!occurs_at(s, empty_end(), j)) by {
            if occurs_at(s, empty_end(), j) {
                lemma_occurs_index(s, j, empty_end(), 0);
                lemma_occurs_index(s, j, tail, 0);
            }
        }
        lemma_occurs_split(s, j, d2, ct);
        lemma_occurs_split(s, j, d1, ind);
        lemma_occurs_split(s, j, seq!['>', '\n'], pc);
        lemma_occurs_all(s, j, seq!['>', '\n']);
        let p2 = j + 2 + pc.len();
        lemma_occurs_all(s, p2, ind);
        lemma_occurs_all(s, p2 + ind.len(), ct);
        assert forall|t: int| p2 <= t < p2 + ind.len() implies s[t] == ' ' by {
            assert(s[p2 + (t - p2)] == ind[t - p2]);
        }
        assert(s[(p2 + ind.len()) + 0] == ct[0]);
        lemma_skip_spaces(s, p2, ind.len() as int);
        assert(occurs_at(s, seq!['<', '/'], p2 + ind.len())) by {
            assert(s[(p2 + ind.len()) + 1] == ct[1]);
            assert(s.subrange(p2 + ind.len(), p2 + ind.len() + 2) =~= seq!['<', '/']);
        }
        lemma_parse_printed_children(s, j + 2, e.children, depth + 1);
        assert(e.literal =~= Seq::<char>::empty());
    }
}

/// Elements written one after another, followed by a closing tag, are read back whole.
proof fn lemma_parse_printed_children(s: Seq<char>, i: int, c: Seq<ElemV>, depth: nat)
    requires
        wf_children(c),
        occurs_at(s, print_children(c, depth), i),
        occurs_at(s, seq!['<', '/'], skip_spaces(s, i + print_children(c, depth).len())),
    ensures
        parse_children(s, i) == Some((c, i + print_children(c, depth).len())),
    decreases c, 2int,
{
    if c.len() == 0 {
        assert(c =~= Seq::<ElemV>::empty());
    } else {
        lemma_children_tail(c);
        let e = c[0];
        let pe = print_elem(e, depth);
        let rest = print_children(c.drop_first(), depth);
        assert(print_children(c, depth) == pe + rest);
        lemma_occurs_split(s, i, pe, rest);
        let ind = indent(depth);
        let c1 = ind + seq!['<'];
        let c2 = c1 + e.name;
        assert(pe.subrange(0, c2.len() as int) =~= c2);
        lemma_occurs_sub(s, i, pe, 0, c2.len() as int);
        assert(occurs_at(s, c2, i));
        lemma_occurs_all(s, i, c2);
        assert forall|t: int| i <= t < i + ind.len() implies s[t] == ' ' by {
            assert(s[i + (t - i)] == c2[t - i]);
        }
        assert(s[i + ind.len()] == c2[ind.len() as int]);
        assert(s[i + (ind.len() + 1)] == c2[ind.len() as int + 1]);
        assert(c2[ind.len() as int + 1] == e.name[0]);
        lemma_skip_spaces(s, i, ind.len() as int);
        assert(!occurs_at(s, seq!['<', '/'], skip_spaces(s, i))) by {
            if occurs_at(s, seq!['<', '/'], skip_spaces(s, i)) {
                lemma_occurs_index(s, i + ind.len(), seq!['<', '/'], 1);
            }
        }
        lemma_parse_printed_elem(s, i, e, depth);
        lemma_parse_printed_children(s, i + pe.len(), c.drop_first(), depth);
        assert(seq![e] + c.drop_first() =~= c);
    }
}

/// A document is read back from the XML form it is written in, code blocks'
/// unescaped info strings included.
pub proof fn lemma_read_back(e: ElemV)
    requires
        wf_elem(e),
    ensures
        parse_document(print_document(e)) == Some(e),
{
    let s = print_document(e);
    let h = xml_header();
    assert(s.subrange(0, h.len() as int) =~= h);
    assert(s.subrange(h.len() as int, s.len() as int) =~= print_elem(e, 0));
    lemma_parse_printed_elem(s, h.len() as int, e, 0);
}

} // verus!
