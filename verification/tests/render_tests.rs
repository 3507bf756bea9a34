use dress::render::render_markdown;
use dress::style::{Color, Line, Modifier, Style};

fn line_text(line: &Line) -> String {
    line.spans.iter().map(|s| s.content.as_str()).collect()
}

fn all_text(lines: &[Line]) -> String {
    lines.iter().map(line_text).collect()
}

#[test]
fn test_heading_renders() {
    let lines = render_markdown("# Hello World");
    assert!(!lines.is_empty());
    let first_line_text = line_text(&lines[0]);
    assert!(first_line_text.contains("Hello World"));
}

#[test]
fn test_code_block_renders() {
    let md = "```rust\nfn main() {}\n```";
    let lines = render_markdown(md);
    assert!(lines.len() >= 3);
}

#[test]
fn test_list_renders() {
    let md = "- item 1\n- item 2\n- item 3";
    let lines = render_markdown(md);
    assert!(lines.len() >= 3);
}

#[test]
fn test_table_renders() {
    let md = "| A | B |\n|---|---|\n| 1 | 2 |";
    let lines = render_markdown(md);
    assert!(lines.len() >= 2);
}

#[test]
fn test_alert_note_renders() {
    let md = "> [!NOTE]\n> This is a note.";
    let lines = render_markdown(md);
    let text = all_text(&lines);
    assert!(text.contains("Note"), "should contain alert title");
    assert!(text.contains("This is a note."), "should contain body");
}

#[test]
fn test_alert_warning_renders() {
    let md = "> [!WARNING]\n> Be careful.";
    let lines = render_markdown(md);
    let text = all_text(&lines);
    assert!(text.contains("Warning"));
}


fn texts(lines: &[Line]) -> Vec<String> {
    lines.iter().map(line_text).collect()
}

fn bold(c: Color) -> Style {
    Style::new().fg(c).add_modifier(Modifier::bold())
}

#[test]
fn heading_prefix_and_style() {
    let lines = render_markdown("# Hello");
    assert_eq!(lines.len(), 2);
    assert_eq!(lines[0].spans.len(), 2);
    assert_eq!(lines[0].spans[0].content, "# ");
    assert_eq!(lines[0].spans[1].content, "Hello");
    assert_eq!(lines[0].spans[0].style, bold(Color::Cyan));
    assert_eq!(lines[0].spans[1].style, bold(Color::Cyan));
    assert!(lines[1].spans.is_empty());
}

#[test]
fn heading_levels_have_their_colors() {
    let cases = [
        ("## a", "## ", Some(Color::Green)),
        ("### a", "### ", Some(Color::Yellow)),
        ("#### a", "#### ", Some(Color::Magenta)),
        ("##### a", "##### ", None),
        ("###### a", "###### ", None),
    ];
    for (md, prefix, fg) in cases {
        let lines = render_markdown(md);
        assert_eq!(lines[0].spans[0].content, prefix);
        assert_eq!(lines[0].spans[0].style.fg, fg);
        assert!(lines[0].spans[0].style.add_modifier.bold);
    }
}

#[test]
fn inline_styles() {
    let lines = render_markdown("*i* **b** ~~s~~ `c`");
    let spans = &lines[0].spans;
    let got: Vec<(&str, Style)> = spans.iter().map(|s| (s.content.as_str(), s.style)).collect();
    let plain = Style::new();
    assert_eq!(
        got,
        vec![
            ("i", plain.add_modifier(Modifier::italic())),
            (" ", plain),
            ("b", plain.add_modifier(Modifier::bold())),
            (" ", plain),
            ("s", plain.add_modifier(Modifier::crossed_out()).fg(Color::DarkGray)),
            (" ", plain),
            ("`c`", plain.fg(Color::Yellow).add_modifier(Modifier::dim())),
        ]
    );
}

#[test]
fn link_shows_its_url() {
    let lines = render_markdown("[text](http://example.com)");
    let spans = &lines[0].spans;
    assert_eq!(spans.len(), 2);
    assert_eq!(spans[0].content, "text");
    assert_eq!(spans[0].style, Style::new().fg(Color::Blue).add_modifier(Modifier::underlined()));
    assert_eq!(spans[1].content, " (http://example.com)");
    assert_eq!(spans[1].style, Style::new().fg(Color::DarkGray));
}

#[test]
fn image_shows_alt_or_url() {
    let lines = render_markdown("![alt](u.png) ![](v.png)");
    assert_eq!(line_text(&lines[0]), "[image: alt] [image: v.png]");
    assert_eq!(
        lines[0].spans[0].style,
        Style::new().fg(Color::DarkGray).add_modifier(Modifier::italic())
    );
}

#[test]
fn line_breaks_become_spaces() {
    let lines = render_markdown("a  \nb\nc");
    assert_eq!(texts(&lines), vec!["a b c", ""]);
}

#[test]
fn bullet_list_lines() {
    let lines = render_markdown("- item 1\n- item 2\n- item 3");
    assert_eq!(texts(&lines), vec!["\u{2022} item 1", "\u{2022} item 2", "\u{2022} item 3", ""]);
    assert_eq!(lines[0].spans[0].style, Style::new().fg(Color::Cyan));
}

#[test]
fn ordered_list_counts_from_its_start() {
    let lines = render_markdown("3. a\n4. b");
    assert_eq!(texts(&lines), vec!["3. a", "4. b", ""]);
}

#[test]
fn nested_list_is_indented() {
    let lines = render_markdown("1. one\n2. two\n   - nested");
    assert_eq!(texts(&lines), vec!["1. one", "2. two", "  \u{2022} nested", ""]);
}

#[test]
fn task_list_shows_check_boxes() {
    let lines = render_markdown("- [x] done\n- [ ] todo");
    assert_eq!(texts(&lines), vec!["[x] done", "[ ] todo", ""]);
}

#[test]
fn table_lines_are_padded() {
    let lines = render_markdown("| A | Bee |\n|---|---|\n| 1 | 2 |");
    assert_eq!(
        texts(&lines),
        vec![
            "\u{2502} A \u{2502} Bee \u{2502} ",
            "\u{251c}\u{2500}\u{2500}\u{2500}\u{253c}\u{2500}\u{2500}\u{2500}\u{2500}\u{2500}\u{2524}",
            "\u{2502} 1 \u{2502} 2   \u{2502} ",
            "",
        ]
    );
    assert_eq!(lines[0].spans[1].style, bold(Color::Cyan));
    assert_eq!(lines[2].spans[1].style, Style::new());
    assert_eq!(lines[0].spans[0].style, Style::new().fg(Color::DarkGray));
}

#[test]
fn table_pads_by_display_width() {
    let lines = render_markdown("| \u{65e5}\u{672c} | b |\n|---|---|\n| x | y |");
    assert_eq!(line_text(&lines[2]), "\u{2502} x    \u{2502} y \u{2502} ");
    assert_eq!(
        line_text(&lines[1]),
        "\u{251c}\u{2500}\u{2500}\u{2500}\u{2500}\u{2500}\u{2500}\u{253c}\u{2500}\u{2500}\u{2500}\u{2524}"
    );
}

#[test]
fn block_quote_has_a_gray_bar() {
    let lines = render_markdown("> quote");
    assert_eq!(texts(&lines), vec!["\u{2502} quote", "\u{2502} ", ""]);
    assert_eq!(lines[0].spans[0].style, Style::new().fg(Color::DarkGray));
    assert_eq!(lines[0].spans[1].style, Style::new().fg(Color::DarkGray));
}

#[test]
fn thematic_break_is_a_rule() {
    let lines = render_markdown("---");
    assert_eq!(texts(&lines), vec!["\u{2500}".repeat(60), String::new()]);
}

#[test]
fn code_block_frame() {
    let lines = render_markdown("```rust\nfn main() {}\n```");
    assert_eq!(lines.len(), 4);
    assert_eq!(line_text(&lines[0]), format!("\u{250c}\u{2500} rust {}", "\u{2500}".repeat(42)));
    assert_eq!(line_text(&lines[1]), "fn main() {}");
    assert!(lines[1].spans.iter().all(|s| matches!(s.style.fg, Some(Color::Rgb(_, _, _)))));
    assert!(lines[1].spans.len() > 1);
    assert_eq!(line_text(&lines[2]), format!("\u{2514}{}", "\u{2500}".repeat(49)));
    assert!(lines[3].spans.is_empty());
}

#[test]
fn code_block_without_language_is_labelled_code() {
    let lines = render_markdown("```\nplain\n```");
    assert_eq!(line_text(&lines[0]), format!("\u{250c}\u{2500} code {}", "\u{2500}".repeat(42)));
    assert_eq!(line_text(&lines[1]), "plain");
}

#[test]
fn code_block_info_with_quote() {
    let lines = render_markdown("```a\"b\nx\n```");
    assert_eq!(line_text(&lines[0]), format!("\u{250c}\u{2500} a\"b {}", "\u{2500}".repeat(43)));
    assert_eq!(line_text(&lines[1]), "x");
}

#[test]
fn alert_title_and_body() {
    let lines = render_markdown("> [!NOTE]\n> This is a note.");
    assert_eq!(texts(&lines), vec!["\u{2139} Note", "\u{2502} This is a note.", "\u{2502} ", ""]);
    assert_eq!(lines[0].spans[0].style, bold(Color::Blue));
    assert_eq!(lines[1].spans[1].style, Style::new().fg(Color::Blue));
}

#[test]
fn alert_with_own_title() {
    let lines = render_markdown("> [!TIP] My title\n> body");
    assert_eq!(line_text(&lines[0]), "\u{1f4a1} My title");
    assert_eq!(lines[0].spans[0].style, bold(Color::Green));
}

#[test]
fn alert_kinds_have_their_icons() {
    let cases = [
        ("IMPORTANT", "\u{2757} Important", Color::Magenta),
        ("WARNING", "\u{26a0} Warning", Color::Yellow),
        ("CAUTION", "\u{1f534} Caution", Color::Red),
    ];
    for (kind, head, color) in cases {
        let lines = render_markdown(&format!("> [!{}]\n> x", kind));
        assert_eq!(line_text(&lines[0]), head);
        assert_eq!(lines[0].spans[0].style, bold(color));
    }
}

#[test]
fn html_blocks_are_left_out() {
    let lines = render_markdown("<div>hi</div>\n\npara");
    assert_eq!(texts(&lines), vec!["para", ""]);
}

#[test]
fn empty_source_renders_nothing() {
    assert!(render_markdown("").is_empty());
}

#[test]
fn list_items_leave_out_other_blocks() {
    let lines = render_markdown("- a\n\n  > q");
    assert_eq!(texts(&lines), vec!["\u{2022} a", ""]);
}

#[test]
fn code_block_label_is_the_whole_info_string() {
    let lines = render_markdown("```python title=\"x.py\" hl_lines=\"2\"\nprint(1)\n```\n\nafter");
    let label = "python title=\"x.py\" hl_lines=\"2\"";
    assert_eq!(line_text(&lines[0]), format!("\u{250c}\u{2500} {} {}", label, "\u{2500}".repeat(46 - label.len())));
    assert_eq!(line_text(&lines[1]), "print(1)");
    assert!(lines.iter().any(|l| line_text(l) == "after"));
}

#[test]
fn code_block_info_with_quote_and_space_keeps_the_document() {
    let lines = render_markdown("```sh \"foo\" bar\necho &amp; <x>\n```\n\nafter");
    assert_eq!(line_text(&lines[0]), format!("\u{250c}\u{2500} sh \"foo\" bar {}", "\u{2500}".repeat(46 - 12)));
    assert_eq!(line_text(&lines[1]), "echo &amp; <x>");
    assert!(lines.iter().any(|l| line_text(l) == "after"));
}

#[test]
fn code_block_info_with_entities_and_math() {
    let lines = render_markdown("```a&amp;b \" xml:space=\"preserve\">c\nx\n```\n\n```math\ny\n```");
    let label = "a&b \" xml:space=\"preserve\">c";
    assert_eq!(line_text(&lines[0]), format!("\u{250c}\u{2500} {} {}", label, "\u{2500}".repeat(46 - label.len())));
    assert!(lines.iter().any(|l| line_text(l).starts_with("\u{250c}\u{2500} math ")));
}

#[test]
fn code_block_info_ending_like_math_style_is_kept_whole() {
    let lines = render_markdown("```x\" math_style=\"display\ny\n```");
    let label = "x\" math_style=\"display";
    assert_eq!(line_text(&lines[0]), format!("\u{250c}\u{2500} {} {}", label, "\u{2500}".repeat(46 - label.len())));
    assert_eq!(line_text(&lines[1]), "y");
}
