use mdcli::event::{Event, Tag, TagEnd};
use mdcli::render::{render, render_events};
use mdcli::style::{heading_style, HeadingLevel};
use mdcli::table::{pad_cell, render_table, Alignment, TableState};
use mdcli::text::visible_len;

#[test]
fn visible_len_plain() {
    assert_eq!(visible_len("hello"), 5);
}

#[test]
fn visible_len_ansi() {
    assert_eq!(visible_len("\x1b[1mbold\x1b[0m"), 4);
}

#[test]
fn pad_cell_left() {
    assert_eq!(pad_cell("ab", 5, &Alignment::Left), "ab   ");
    assert_eq!(pad_cell("ab", 5, &Alignment::Unspecified), "ab   ");
}

#[test]
fn pad_cell_right() {
    assert_eq!(pad_cell("ab", 5, &Alignment::Right), "   ab");
}

#[test]
fn pad_cell_center() {
    assert_eq!(pad_cell("ab", 5, &Alignment::Center), " ab  ");
    assert_eq!(pad_cell("ab", 6, &Alignment::Center), "  ab  ");
}

#[test]
fn plain_text_paragraph() {
    assert_eq!(render("hello\n"), "hello\n\n");
}

#[test]
fn heading_h1() {
    assert_eq!(render("# Hello\n"), "\x1b[1;97mHello\x1b[0m\n\n");
}

#[test]
fn heading_h2_different_color() {
    assert_eq!(render("## World\n"), "\x1b[1;36mWorld\x1b[0m\n\n");
}

#[test]
fn bold_text() {
    assert_eq!(render("**bold**\n"), "\x1b[1mbold\x1b[0m\n\n");
}

#[test]
fn italic_text() {
    assert_eq!(render("*italic*\n"), "\x1b[3mitalic\x1b[0m\n\n");
}

#[test]
fn inline_code() {
    assert_eq!(render("`code`\n"), "\x1b[7mcode\x1b[0m\n\n");
}

#[test]
fn paragraph_separation() {
    assert_eq!(render("first\n\nsecond\n"), "first\n\nsecond\n\n");
}

#[test]
fn fenced_code_block() {
    assert_eq!(render("```\nhello world\n```\n"), "\x1b[2mhello world\n\x1b[0m\n\n");
}

#[test]
fn fenced_code_block_with_language() {
    assert_eq!(render("```rust\nfn main() {}\n```\n"), "\x1b[2mfn main() {}\n\x1b[0m\n\n");
}

#[test]
fn code_block_multiline() {
    assert_eq!(render("```\nline1\nline2\n```\n"), "\x1b[2mline1\nline2\n\x1b[0m\n\n");
}

#[test]
fn unordered_list() {
    assert_eq!(render("* first\n* second\n"), "\u{2022} first\n\u{2022} second\n\n");
}

#[test]
fn ordered_list() {
    assert_eq!(render("1. first\n2. second\n"), "1. first\n2. second\n\n");
}

#[test]
fn link() {
    assert_eq!(
        render("[click here](https://example.com)\n"),
        "\x1b[4mclick here\x1b[0m (https://example.com)\n\n"
    );
}

#[test]
fn image_alt_text() {
    assert_eq!(render("![diagram](pic.png)\n"), "\x1b[2m[diagram]\x1b[0m\n\n");
}

#[test]
fn heading_then_list_spacing() {
    let out = render("## Title\n* item\n");
    assert!(
        out.contains("\x1b[0m\n\n\u{2022}"),
        "heading should have blank line before list"
    );
}

#[test]
fn simple_table() {
    let out = render("| A | B |\n|---|---|\n| c | d |\n");
    assert!(out.contains("┌"));
    assert!(out.contains("┘"));
    assert!(out.contains("\x1b[1m"));
    assert!(out.contains("A"));
    assert!(out.contains("d"));
}

#[test]
fn table_column_widths() {
    let out = render("| Short | X |\n|---|---|\n| Longer text | Y |\n");
    let lines: Vec<&str> = out.lines().collect();
    let top = lines.first().unwrap();
    let bottom = lines.iter().rev().find(|l| !l.is_empty()).unwrap();
    assert!(top.starts_with('┌'));
    assert!(bottom.starts_with('└'));
    assert_eq!(top.len(), bottom.len());
}

#[test]
fn table_right_alignment() {
    let out = render("| N |\n|--:|\n| x |\n| longer |\n");
    let x_line = out
        .lines()
        .find(|l| l.contains("x") && l.contains("│"))
        .unwrap();
    let cell_content = x_line.split('│').nth(1).unwrap();
    assert!(
        cell_content.starts_with("  "),
        "expected right-aligned padding, got: {:?}",
        cell_content
    );
}
