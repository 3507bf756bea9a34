use dress::app::{App, KeyCode, KeyInput, Mode};
use dress::style::{Color, Line, Span, Style};

fn text_line(t: &str) -> Line {
    Line::from_spans(vec![Span::raw(t.to_string())])
}

fn numbered(n: usize) -> Vec<Line> {
    (0..n).map(|i| text_line(&format!("line {}", i))).collect()
}

fn line_text(line: &Line) -> String {
    line.spans.iter().map(|s| s.content.as_str()).collect()
}

fn ch(c: char) -> KeyInput {
    KeyInput { code: KeyCode::Char(c), ctrl: false }
}

fn ctrl(c: char) -> KeyInput {
    KeyInput { code: KeyCode::Char(c), ctrl: true }
}

fn key(code: KeyCode) -> KeyInput {
    KeyInput { code, ctrl: false }
}

fn type_str(app: &mut App, s: &str) {
    for c in s.chars() {
        app.handle_key(ch(c));
    }
}

#[test]
fn new_app_starts_at_top() {
    let app = App::new(numbered(30), "f.md".to_string());
    assert_eq!(app.scroll(), 0);
    assert_eq!(app.mode(), Mode::Normal);
    assert!(!app.should_quit());
    assert_eq!(app.max_scroll(), 6);
    assert_eq!(app.page_size(), 22);
    assert_eq!(app.status_text(20), format!(" f.md{} Top ", " ".repeat(10)));
}

#[test]
fn j_and_k_scroll_one_line() {
    let mut app = App::new(numbered(30), "f.md".to_string());
    app.handle_key(ch('j'));
    assert_eq!(app.scroll(), 1);
    app.handle_key(key(KeyCode::Down));
    assert_eq!(app.scroll(), 2);
    app.handle_key(ch('k'));
    app.handle_key(key(KeyCode::Up));
    assert_eq!(app.scroll(), 0);
    app.handle_key(ch('k'));
    assert_eq!(app.scroll(), 0);
}

#[test]
fn scrolling_stops_at_the_last_screen() {
    let mut app = App::new(numbered(30), "f.md".to_string());
    for _ in 0..10 {
        app.handle_key(ch('j'));
    }
    assert_eq!(app.scroll(), 6);
    assert_eq!(app.status_text(12), " f.md   Bot ");
}

#[test]
fn g_and_end_keys() {
    let mut app = App::new(numbered(30), "f.md".to_string());
    app.handle_key(ch('G'));
    assert_eq!(app.scroll(), 6);
    app.handle_key(ch('g'));
    assert_eq!(app.scroll(), 0);
    app.handle_key(key(KeyCode::End));
    assert_eq!(app.scroll(), 6);
    app.handle_key(key(KeyCode::Home));
    assert_eq!(app.scroll(), 0);
}

#[test]
fn page_and_half_page_scrolling() {
    let mut app = App::new(numbered(30), "f.md".to_string());
    app.resize(11);
    assert_eq!(app.max_scroll(), 20);
    assert_eq!(app.page_size(), 8);
    app.handle_key(ch(' '));
    assert_eq!(app.scroll(), 8);
    app.handle_key(ch('f'));
    assert_eq!(app.scroll(), 16);
    app.handle_key(key(KeyCode::PageDown));
    assert_eq!(app.scroll(), 20);
    app.handle_key(ch('b'));
    assert_eq!(app.scroll(), 12);
    app.handle_key(key(KeyCode::PageUp));
    assert_eq!(app.scroll(), 4);
    app.handle_key(ctrl('d'));
    assert_eq!(app.scroll(), 9);
    app.handle_key(ctrl('u'));
    assert_eq!(app.scroll(), 4);
    app.handle_key(ch('d'));
    app.handle_key(ch('u'));
    assert_eq!(app.scroll(), 4);
}

#[test]
fn tiny_viewport_pages_by_one_line() {
    let mut app = App::new(numbered(30), "f.md".to_string());
    app.resize(2);
    assert_eq!(app.page_size(), 1);
    app.handle_key(ch(' '));
    assert_eq!(app.scroll(), 1);
    app.resize(0);
    assert_eq!(app.max_scroll(), 30);
}

#[test]
fn status_shows_percent_in_the_middle() {
    let mut app = App::new(numbered(30), "f.md".to_string());
    app.resize(11);
    for _ in 0..5 {
        app.handle_key(ch('j'));
    }
    assert_eq!(app.scroll_percent(), 25);
    assert_eq!(app.status_text(12), " f.md   25% ");
}

#[test]
fn status_shows_all_when_everything_fits() {
    let app = App::new(numbered(5), "f.md".to_string());
    assert_eq!(app.status_text(0), " f.md All ");
    assert_eq!(app.scroll_percent(), 100);
}

#[test]
fn q_and_ctrl_c_quit() {
    let mut app = App::new(numbered(3), "f.md".to_string());
    app.handle_key(ch('c'));
    assert!(!app.should_quit());
    app.handle_key(ctrl('c'));
    assert!(app.should_quit());
    let mut app = App::new(numbered(3), "f.md".to_string());
    app.handle_key(ch('q'));
    assert!(app.should_quit());
}

fn words() -> Vec<Line> {
    vec![text_line("alpha"), text_line("Beta"), text_line("alphabet"), text_line("gamma")]
}

#[test]
fn search_finds_lines_ignoring_case() {
    let mut app = App::new(words(), "f.md".to_string());
    app.handle_key(ch('/'));
    assert_eq!(app.mode(), Mode::Search);
    type_str(&mut app, "ALP");
    assert_eq!(app.status_text(0), "/ALP All ");
    app.handle_key(key(KeyCode::Enter));
    assert_eq!(app.mode(), Mode::Normal);
    assert_eq!(app.search_matches(), &vec![0, 2]);
    assert_eq!(app.status_text(0), " f.md [1/2] All ");
    app.handle_key(ch('n'));
    assert_eq!(app.status_text(0), " f.md [2/2] All ");
    app.handle_key(ch('n'));
    assert_eq!(app.status_text(0), " f.md [1/2] All ");
    app.handle_key(ch('N'));
    assert_eq!(app.status_text(0), " f.md [2/2] All ");
}

#[test]
fn search_scrolls_to_the_first_match() {
    let mut lines = numbered(40);
    lines[25] = text_line("needle");
    lines[33] = text_line("needle again");
    let mut app = App::new(lines, "f.md".to_string());
    app.resize(11);
    type_str(&mut app, "/needle");
    app.handle_key(key(KeyCode::Enter));
    assert_eq!(app.scroll(), 25);
    app.handle_key(ch('n'));
    assert_eq!(app.scroll(), 30);
    app.handle_key(ch('n'));
    assert_eq!(app.scroll(), 25);
}

#[test]
fn search_not_found() {
    let mut app = App::new(words(), "f.md".to_string());
    type_str(&mut app, "/zzz");
    app.handle_key(key(KeyCode::Enter));
    assert!(app.search_matches().is_empty());
    assert_eq!(app.status_text(0), " f.md [not found] All ");
    app.handle_key(ch('n'));
    assert_eq!(app.scroll(), 0);
}

#[test]
fn escape_and_backspace_in_search() {
    let mut app = App::new(words(), "f.md".to_string());
    type_str(&mut app, "/abc");
    app.handle_key(key(KeyCode::Backspace));
    assert_eq!(app.status_text(0), "/ab All ");
    app.handle_key(key(KeyCode::Esc));
    assert_eq!(app.mode(), Mode::Normal);
    assert_eq!(app.status_text(0), " f.md All ");
    type_str(&mut app, "/");
    assert_eq!(app.status_text(0), "/ All ");
    app.handle_key(key(KeyCode::Backspace));
    assert_eq!(app.status_text(0), "/ All ");
}

#[test]
fn empty_search_clears_matches() {
    let mut app = App::new(words(), "f.md".to_string());
    type_str(&mut app, "/alpha");
    app.handle_key(key(KeyCode::Enter));
    assert_eq!(app.search_matches().len(), 2);
    app.handle_key(ch('/'));
    app.handle_key(key(KeyCode::Enter));
    assert!(app.search_matches().is_empty());
    assert_eq!(app.status_text(0), " f.md All ");
}

#[test]
fn line_jump_command() {
    let mut app = App::new(numbered(30), "f.md".to_string());
    app.resize(11);
    app.handle_key(ch(':'));
    assert_eq!(app.mode(), Mode::Command);
    type_str(&mut app, "1x5");
    assert_eq!(app.status_text(0), ":15 Top ");
    app.handle_key(key(KeyCode::Enter));
    assert_eq!(app.mode(), Mode::Normal);
    assert_eq!(app.scroll(), 14);
    type_str(&mut app, ":99");
    app.handle_key(key(KeyCode::Enter));
    assert_eq!(app.scroll(), 20);
    type_str(&mut app, ":0");
    app.handle_key(key(KeyCode::Enter));
    assert_eq!(app.scroll(), 0);
}

#[test]
fn empty_or_cancelled_line_jump_keeps_the_view() {
    let mut app = App::new(numbered(30), "f.md".to_string());
    app.resize(11);
    app.handle_key(ch('j'));
    app.handle_key(ch(':'));
    app.handle_key(key(KeyCode::Enter));
    assert_eq!(app.scroll(), 1);
    type_str(&mut app, ":12");
    app.handle_key(key(KeyCode::Backspace));
    assert_eq!(app.status_text(0), ":1 5% ");
    app.handle_key(key(KeyCode::Esc));
    assert_eq!(app.scroll(), 1);
    assert_eq!(app.mode(), Mode::Normal);
}

#[test]
fn line_jump_beyond_usize_is_ignored() {
    let mut app = App::new(numbered(30), "f.md".to_string());
    app.resize(11);
    app.handle_key(ch('j'));
    type_str(&mut app, ":99999999999999999999999999");
    app.handle_key(key(KeyCode::Enter));
    assert_eq!(app.scroll(), 1);
}

#[test]
fn highlight_splits_matches() {
    let mut app = App::new(words(), "f.md".to_string());
    type_str(&mut app, "/ALP");
    app.handle_key(key(KeyCode::Enter));
    let hl = app.highlight_line(&text_line("alphabet alp"));
    let got: Vec<(String, Style)> = hl.spans.iter().map(|s| (s.content.clone(), s.style)).collect();
    let yellow = Style::new().fg(Color::Black).bg(Color::Yellow);
    assert_eq!(
        got,
        vec![
            ("alp".to_string(), yellow),
            ("habet ".to_string(), Style::new()),
            ("alp".to_string(), yellow),
        ]
    );
}

#[test]
fn highlight_crosses_span_boundaries() {
    let mut app = App::new(words(), "f.md".to_string());
    type_str(&mut app, "/lph");
    app.handle_key(key(KeyCode::Enter));
    let bold = Style::new().fg(Color::Cyan);
    let line = Line::from_spans(vec![
        Span::styled("al".to_string(), bold),
        Span::styled("pha".to_string(), Style::new()),
    ]);
    let hl = app.highlight_line(&line);
    let got: Vec<(String, Style)> = hl.spans.iter().map(|s| (s.content.clone(), s.style)).collect();
    let yellow = Style::new().fg(Color::Black).bg(Color::Yellow);
    assert_eq!(
        got,
        vec![
            ("a".to_string(), bold),
            ("l".to_string(), yellow),
            ("ph".to_string(), yellow),
            ("a".to_string(), Style::new()),
        ]
    );
}

#[test]
fn highlight_without_query_or_match_keeps_the_line() {
    let app = App::new(words(), "f.md".to_string());
    let hl = app.highlight_line(&text_line("alpha"));
    assert_eq!(hl.spans.len(), 1);
    assert_eq!(hl.spans[0].content, "alpha");
    let mut app = App::new(words(), "f.md".to_string());
    type_str(&mut app, "/zz");
    app.handle_key(key(KeyCode::Enter));
    let hl = app.highlight_line(&text_line("alpha"));
    assert_eq!(hl.spans.len(), 1);
    assert_eq!(hl.spans[0].style, Style::new());
}

#[test]
fn visible_lines_follow_the_scroll() {
    let mut app = App::new(numbered(30), "f.md".to_string());
    app.resize(11);
    type_str(&mut app, ":15");
    app.handle_key(key(KeyCode::Enter));
    let vis = app.visible_lines();
    assert_eq!(vis.len(), 10);
    assert_eq!(line_text(&vis[0]), "line 14");
    assert_eq!(line_text(&vis[9]), "line 23");
    app.handle_key(ch('G'));
    let vis = app.visible_lines();
    assert_eq!(line_text(&vis[9]), "line 29");
}

#[test]
fn visible_lines_are_highlighted() {
    let mut app = App::new(words(), "f.md".to_string());
    type_str(&mut app, "/bet");
    app.handle_key(key(KeyCode::Enter));
    let vis = app.visible_lines();
    assert_eq!(vis.len(), 4);
    assert_eq!(vis[1].spans[0].content, "Bet");
    assert_eq!(vis[1].spans[0].style.bg, Some(Color::Yellow));
    assert_eq!(vis[1].spans[1].content, "a");
    assert_eq!(vis[2].spans[0].content, "alpha");
    assert_eq!(vis[2].spans[1].content, "bet");
    assert_eq!(vis[2].spans[1].style.bg, Some(Color::Yellow));
    assert_eq!(vis[0].spans.len(), 1);
}

#[test]
fn status_pads_to_the_width() {
    let app = App::new(numbered(5), "\u{65e5}\u{672c}.md".to_string());
    // " 日本.md" takes 8 columns, " All " 5 columns.
    assert_eq!(app.status_text(16), format!(" \u{65e5}\u{672c}.md{} All ", " ".repeat(3)));
}

#[test]
fn search_lowercases_and_status_counts_columns() {
    let mut app = App::new(vec![text_line("xÀBy"), text_line("ab")], "日本".to_string());
    type_str(&mut app, "/àb");
    app.handle_key(key(KeyCode::Enter));
    assert_eq!(app.search_matches(), &vec![0]);
    let plain = App::new(vec![text_line("a")], "日本".to_string());
    assert_eq!(plain.status_text(10), " 日本 All ");
    assert_eq!(plain.status_text(12), " 日本   All ");
}
