use dress::app::{App, KeyCode, KeyInput};
use dress::style::{Line, Span, Style, Color};

fn text_line(t: &str) -> Line {
    Line::from_spans(vec![Span::raw(t.to_string())])
}

fn ch(c: char) -> KeyInput {
    KeyInput { code: KeyCode::Char(c), ctrl: false }
}

fn line_text(line: &Line) -> String {
    line.spans.iter().map(|s| s.content.as_str()).collect()
}

fn pager(n: usize) -> App {
    let lines = (0..n).map(|i| text_line(&format!("row {} {}", i, if i % 3 == 0 { "Fizz" } else { "" }))).collect();
    let mut app = App::new(lines, "doc".to_string());
    app.resize(11);
    app
}

#[test]
fn law_down_then_up_restores() {
    let mut app = pager(30);
    for _ in 0..4 {
        app.handle_key(ch('j'));
    }
    let before = (app.scroll(), app.status_text(30));
    app.handle_key(ch('j'));
    app.handle_key(ch('k'));
    assert_eq!((app.scroll(), app.status_text(30)), before);
}

#[test]
fn law_up_then_down_restores() {
    let mut app = pager(30);
    app.handle_key(ch('G'));
    let before = app.scroll();
    app.handle_key(ch('k'));
    app.handle_key(ch('j'));
    assert_eq!(app.scroll(), before);
}

#[test]
fn law_scroll_back_by_pages() {
    let mut app = pager(60);
    app.handle_key(ch(' '));
    let before = app.scroll();
    app.handle_key(ch(' '));
    app.handle_key(ch('b'));
    assert_eq!(app.scroll(), before);
}

#[test]
fn law_scrolling_stays_within_the_document() {
    let mut app = pager(30);
    let keys = ['j', ' ', 'f', 'G', 'j', 'j', 'b', 'k', 'g', 'k'];
    for k in keys {
        app.handle_key(ch(k));
        assert!(app.scroll() <= app.max_scroll());
    }
}

#[test]
fn law_next_then_prev_restores_the_match() {
    let mut app = pager(30);
    for c in "/fizz".chars() {
        app.handle_key(ch(c));
    }
    app.handle_key(KeyInput { code: KeyCode::Enter, ctrl: false });
    app.handle_key(ch('n'));
    app.handle_key(ch('n'));
    let before = app.status_text(40);
    app.handle_key(ch('n'));
    app.handle_key(ch('N'));
    assert_eq!(app.status_text(40), before);
    app.handle_key(ch('N'));
    app.handle_key(ch('n'));
    assert_eq!(app.status_text(40), before);
}

#[test]
fn law_search_finds_exactly_the_matching_lines() {
    let mut app = pager(30);
    for c in "/FIZZ".chars() {
        app.handle_key(ch(c));
    }
    app.handle_key(KeyInput { code: KeyCode::Enter, ctrl: false });
    let expected: Vec<usize> = (0..30).filter(|i| i % 3 == 0).collect();
    assert_eq!(app.search_matches(), &expected);
    assert_eq!(app.scroll(), 0);
}

#[test]
fn law_highlighting_keeps_the_text() {
    let mut app = pager(3);
    for c in "/ab".chars() {
        app.handle_key(ch(c));
    }
    app.handle_key(KeyInput { code: KeyCode::Enter, ctrl: false });
    let line = Line::from_spans(vec![
        Span::styled("xAb".to_string(), Style::new().fg(Color::Red)),
        Span::raw("aBab".to_string()),
        Span::raw(String::new()),
        Span::raw("b".to_string()),
    ]);
    let hl = app.highlight_line(&line);
    assert_eq!(line_text(&hl), line_text(&line));
    assert!(hl.spans.len() > line.spans.len());
}

#[test]
fn law_new_pager_is_valid() {
    let app = App::new(Vec::new(), String::new());
    assert_eq!(app.scroll(), 0);
    assert_eq!(app.max_scroll(), 0);
    assert!(app.visible_lines().is_empty());
}

fn char_styles(line: &Line) -> Vec<Style> {
    line.spans.iter().flat_map(|s| s.content.chars().map(move |_| s.style)).collect()
}

#[test]
fn law_highlight_marks_exactly_the_matches() {
    let mut app = pager(3);
    for c in "/ab".chars() {
        app.handle_key(ch(c));
    }
    app.handle_key(KeyInput { code: KeyCode::Enter, ctrl: false });
    let red = Style::new().fg(Color::Red);
    let line = Line::from_spans(vec![
        Span::styled("xAb".to_string(), red),
        Span::raw("aBab".to_string()),
        Span::raw("b".to_string()),
    ]);
    let hl = app.highlight_line(&line);
    let yellow = Style::new().fg(Color::Black).bg(Color::Yellow);
    let plain = Style::new();
    assert_eq!(
        char_styles(&hl),
        vec![red, yellow, yellow, yellow, yellow, yellow, yellow, plain]
    );
}

#[test]
fn law_typed_search_selects_the_first_match() {
    let mut app = pager(40);
    for c in "/row 3".chars() {
        app.handle_key(ch(c));
    }
    app.handle_key(KeyInput { code: KeyCode::Enter, ctrl: false });
    assert_eq!(app.search_matches(), &vec![3, 30, 31, 32, 33, 34, 35, 36, 37, 38, 39]);
    assert_eq!(app.scroll(), 3);
    assert!(app.status_text(40).starts_with(" doc [1/11]"));
}

#[test]
fn law_line_jump_scrolls_to_the_line() {
    let mut app = pager(40);
    for c in ":17".chars() {
        app.handle_key(ch(c));
    }
    app.handle_key(KeyInput { code: KeyCode::Enter, ctrl: false });
    assert_eq!(app.scroll(), 16);
    for c in ":99".chars() {
        app.handle_key(ch(c));
    }
    app.handle_key(KeyInput { code: KeyCode::Enter, ctrl: false });
    assert_eq!(app.scroll(), app.max_scroll());
    assert_eq!(app.max_scroll(), 30);
}

#[test]
fn law_table_columns_line_up() {
    let lines = dress::render::render_markdown("| a | bbb |\n|---|---|\n| cc | d |\n| eeee | ff |");
    let lens: Vec<usize> = lines.iter().take(4).map(|l| line_text(l).chars().count()).collect();
    assert_eq!(lens[0], 2 + (4 + 3) + (3 + 3));
    assert_eq!(lens[1], lens[0] - 1);
    assert_eq!(lens[2], lens[0]);
    assert_eq!(lens[3], lens[0]);
    assert_eq!(line_text(&lines[1]), "├──────┼─────┤");
}

#[test]
fn law_code_frame_closes() {
    for md in ["```rust\nlet x = 1;\n```", "```\nplain\n```", "```python\na\nb\n```"] {
        let lines = dress::render::render_markdown(md);
        let n = lines.len();
        assert_eq!(line_text(&lines[0]).chars().count(), 50);
        assert_eq!(line_text(&lines[n - 2]).chars().count(), 50);
        assert!(line_text(&lines[n - 2]).starts_with('└'));
    }
}

#[test]
fn law_top_and_bottom_keys() {
    let mut app = pager(40);
    app.handle_key(ch('G'));
    let shown = app.visible_lines();
    assert_eq!(shown.len(), 10);
    assert_eq!(line_text(&shown[9]), "row 39 Fizz");
    app.handle_key(ch('g'));
    assert_eq!(app.scroll(), 0);
    assert_eq!(line_text(&app.visible_lines()[0]), "row 0 Fizz");
}

#[test]
fn law_typing_then_backspace_restores_the_query() {
    let mut app = pager(5);
    for c in "/ro".chars() {
        app.handle_key(ch(c));
    }
    let before = app.status_text(30);
    app.handle_key(ch('q'));
    app.handle_key(KeyInput { code: KeyCode::Backspace, ctrl: false });
    assert_eq!(app.status_text(30), before);
    assert!(!app.should_quit());
}

#[test]
fn law_command_input_holds_digits_only() {
    let mut app = pager(40);
    for c in ":1x2".chars() {
        app.handle_key(ch(c));
    }
    assert!(app.status_text(20).starts_with(":12 "));
    app.handle_key(KeyInput { code: KeyCode::Enter, ctrl: false });
    assert_eq!(app.scroll(), 11);
}

#[test]
fn law_next_then_prev_restores_the_view() {
    let mut app = pager(40);
    for c in "/fizz".chars() {
        app.handle_key(ch(c));
    }
    app.handle_key(KeyInput { code: KeyCode::Enter, ctrl: false });
    app.handle_key(ch('n'));
    app.handle_key(ch('n'));
    let before = (app.scroll(), app.status_text(40));
    app.handle_key(ch('n'));
    app.handle_key(ch('N'));
    assert_eq!((app.scroll(), app.status_text(40)), before);
    assert_eq!(app.scroll(), 6);
}

#[test]
fn law_blocks_end_with_an_empty_line() {
    for md in ["# h", "para", "```\nx\n```", "- a", "> q", "---", "| a |\n|---|\n| b |", "> [!NOTE]\n> n"] {
        let lines = dress::render::render_markdown(md);
        assert!(!lines.is_empty());
        assert!(lines.last().unwrap().spans.iter().all(|s| s.content.is_empty()));
    }
}

#[test]
fn status_bar_is_black_on_white() {
    let s = dress::app::status_style();
    assert_eq!(s, Style::new().fg(Color::Black).bg(Color::White));
}
