use mdcli::event::{Event, Tag, TagEnd};
use mdcli::markdown::parse;
use mdcli::render::{render, render_events};
use mdcli::style::{heading_style, HeadingLevel};
use mdcli::table::{pad_cell, render_table, Alignment, TableState};
use mdcli::text::visible_len;

fn table(alignments: Vec<Alignment>, rows: Vec<Vec<&str>>) -> TableState {
    TableState {
        alignments,
        rows: rows
            .into_iter()
            .map(|r| r.into_iter().map(|c| c.to_string()).collect())
            .collect(),
        current_row: Vec::new(),
        current_cell: String::new(),
    }
}

#[test]
fn visible_len_counts_characters_not_bytes() {
    assert_eq!(visible_len("héllo │"), 7);
    assert_eq!(visible_len(""), 0);
}

#[test]
fn visible_len_open_escape_hides_the_rest() {
    assert_eq!(visible_len("ab\x1b[1"), 2);
    assert_eq!(visible_len("\x1b[1;97mTitle\x1b[0m"), 5);
}

#[test]
fn pad_cell_never_cuts() {
    assert_eq!(pad_cell("abc", 2, &Alignment::Right), "abc");
    assert_eq!(pad_cell("abc", 3, &Alignment::Center), "abc");
}

#[test]
fn pad_cell_counts_only_visible_characters() {
    assert_eq!(
        pad_cell("\x1b[1mab\x1b[0m", 4, &Alignment::Right),
        "  \x1b[1mab\x1b[0m"
    );
    assert_eq!(
        pad_cell("\x1b[1mab\x1b[0m", 5, &Alignment::Center),
        " \x1b[1mab\x1b[0m  "
    );
}

#[test]
fn padded_cell_is_as_wide_as_its_column() {
    for width in 0..8 {
        for a in [Alignment::Unspecified, Alignment::Left, Alignment::Center, Alignment::Right] {
            let out = pad_cell("\x1b[3mxyz\x1b[0m", width, &a);
            assert_eq!(visible_len(&out), width.max(3));
        }
    }
}

#[test]
fn heading_styles_are_distinct() {
    let levels = [
        HeadingLevel::H1,
        HeadingLevel::H2,
        HeadingLevel::H3,
        HeadingLevel::H4,
        HeadingLevel::H5,
        HeadingLevel::H6,
    ];
    for (i, a) in levels.iter().enumerate() {
        for (j, b) in levels.iter().enumerate() {
            assert_eq!(heading_style(*a) == heading_style(*b), i == j);
        }
    }
    assert_eq!(heading_style(HeadingLevel::H6), "\x1b[1;35m");
}

#[test]
fn headings_of_every_level() {
    assert_eq!(render("### c\n"), "\x1b[1;32mc\x1b[0m\n\n");
    assert_eq!(render("#### d\n"), "\x1b[1;33md\x1b[0m\n\n");
    assert_eq!(render("##### e\n"), "\x1b[1;34me\x1b[0m\n\n");
    assert_eq!(render("###### f\n"), "\x1b[1;35mf\x1b[0m\n\n");
}

#[test]
fn render_table_exact() {
    let t = table(
        vec![Alignment::Unspecified, Alignment::Right],
        vec![vec!["A", "B"], vec!["c", "dd"]],
    );
    assert_eq!(
        render_table(&t),
        "┌───┬────┐\n│ \x1b[1mA\x1b[0m │ \x1b[1m B\x1b[0m │\n├───┼────┤\n│ c │ dd │\n└───┴────┘\n\n"
    );
}

#[test]
fn render_table_short_rows_get_empty_cells() {
    let t = table(vec![Alignment::Left, Alignment::Center], vec![vec!["h", "ead"], vec!["x"]]);
    assert_eq!(
        render_table(&t),
        "┌───┬─────┐\n│ \x1b[1mh\x1b[0m │ \x1b[1mead\x1b[0m │\n├───┼─────┤\n│ x │     │\n└───┴─────┘\n\n"
    );
}

#[test]
fn table_lines_have_equal_visible_width() {
    let t = table(
        vec![Alignment::Center, Alignment::Right, Alignment::Unspecified],
        vec![
            vec!["one", "\x1b[1mtwo\x1b[0m", "3"],
            vec!["a much longer cell", "b"],
            vec!["", "\x1b[7mcode\x1b[0m", "xyz", "ignored"],
        ],
    );
    let out = render_table(&t);
    let widths: Vec<usize> = out
        .lines()
        .filter(|l| !l.is_empty())
        .map(|l| visible_len(l))
        .collect();
    assert_eq!(widths.len(), 6);
    assert!(widths.iter().all(|w| *w == widths[0]));
}

#[test]
fn empty_table_draws_borders_only() {
    let t = table(vec![], vec![]);
    assert_eq!(render_table(&t), "┌\n└\n\n");
    let t = table(vec![Alignment::Left, Alignment::Right], vec![]);
    let out = render_table(&t);
    assert_eq!(out, "┌──┬──┐\n└──┴──┘\n\n");
    let lines: Vec<&str> = out.lines().filter(|l| !l.is_empty()).collect();
    assert_eq!(visible_len(lines[0]), visible_len(lines[1]));
}

#[test]
fn ordered_list_counts_from_its_start() {
    assert_eq!(render("3. a\n4. b\n"), "3. a\n4. b\n\n");
    assert_eq!(render("9. a\n1. b\n2. c\n"), "9. a\n10. b\n11. c\n\n");
}

#[test]
fn nested_list_is_indented() {
    let events = vec![
        Event::Start(Tag::List(None)),
        Event::Start(Tag::Item),
        Event::Text("a".to_string()),
        Event::Start(Tag::List(Some(7))),
        Event::Start(Tag::Item),
        Event::Text("b".to_string()),
        Event::End(TagEnd::Item),
        Event::End(TagEnd::List),
        Event::End(TagEnd::Item),
        Event::End(TagEnd::List),
    ];
    assert_eq!(render_events(&events), "\u{2022} a\n  7. b\n\n\n");
}

#[test]
fn link_inside_bold_restores_bold() {
    assert_eq!(
        render("**[a](u)**\n"),
        "\x1b[1m\x1b[4ma\x1b[0m (u)\x1b[1m\x1b[0m\n\n"
    );
}

#[test]
fn code_inside_emphasis_restores_italic() {
    assert_eq!(
        render("*a `c`*\n"),
        "\x1b[3ma \x1b[7mc\x1b[0m\x1b[3m\x1b[0m\n\n"
    );
}

#[test]
fn line_breaks() {
    assert_eq!(render("a\nb\n"), "a\nb\n\n");
    assert_eq!(render("a  \nb\n"), "a\nb\n\n");
}

#[test]
fn ignored_events_draw_nothing() {
    let events = vec![
        Event::Other,
        Event::Start(Tag::Paragraph),
        Event::End(TagEnd::Table),
        Event::Start(Tag::TableCell),
        Event::Text("t".to_string()),
    ];
    assert_eq!(render_events(&events), "t");
}

#[test]
fn table_collects_inline_styles_in_cells() {
    let events = vec![
        Event::Start(Tag::Table(vec![Alignment::Unspecified])),
        Event::Start(Tag::TableHead),
        Event::Start(Tag::TableCell),
        Event::Start(Tag::Strong),
        Event::Text("H".to_string()),
        Event::End(TagEnd::Strong),
        Event::End(TagEnd::TableCell),
        Event::End(TagEnd::TableHead),
        Event::Start(Tag::TableRow),
        Event::Start(Tag::TableCell),
        Event::Code("ab".to_string()),
        Event::End(TagEnd::TableCell),
        Event::End(TagEnd::TableRow),
        Event::End(TagEnd::Table),
        Event::Text("after".to_string()),
    ];
    assert_eq!(
        render_events(&events),
        "┌────┐\n│ \x1b[1m\x1b[1mH\x1b[0m \x1b[0m │\n├────┤\n│ \x1b[7mab\x1b[0m │\n└────┘\n\nafter"
    );
}

#[test]
fn image_inside_link() {
    assert_eq!(
        render("[![x](i.png)](u)\n"),
        "\x1b[4m\x1b[2m[x]\x1b[0m\x1b[0m (u)\n\n"
    );
}

#[test]
fn list_numbers_from_zero_and_large_starts() {
    assert_eq!(render("0. a\n"), "0. a\n\n");
    assert_eq!(render("123456789. a\n"), "123456789. a\n\n");
}

#[test]
fn rules_and_html_draw_nothing() {
    assert_eq!(render("a\n\n---\n\nb\n"), "a\n\nb\n\n");
    assert_eq!(render("<div>\n"), "");
}

#[test]
fn nested_list_items_start_their_own_lines() {
    let out = render("* a\n  * b\n");
    let lines: Vec<&str> = out.lines().collect();
    assert_eq!(lines[0], "\u{2022} a");
    assert_eq!(lines[1], "  \u{2022} b");
}

#[test]
fn visible_len_strips_control_sequences_with_any_final_character() {
    assert_eq!(visible_len("\x1b[2~ab"), 2);
    assert_eq!(visible_len("\x1b[?25lab"), 2);
    assert_eq!(visible_len("\x1b(Bab"), 2);
    assert_eq!(visible_len("\x1bcab"), 2);
}

#[test]
fn visible_len_other_escape_sequences_end_at_a_letter() {
    assert_eq!(visible_len("\x1b]0;t\x07x"), 2);
    assert_eq!(visible_len("\x1b7ab"), 1);
}

/// The closing that matches an opening.
fn end_of(tag: &Tag) -> TagEnd {
    match tag {
        Tag::Paragraph => TagEnd::Paragraph,
        Tag::Heading(_) => TagEnd::Heading,
        Tag::CodeBlock => TagEnd::CodeBlock,
        Tag::List(_) => TagEnd::List,
        Tag::Item => TagEnd::Item,
        Tag::Table(_) => TagEnd::Table,
        Tag::TableHead => TagEnd::TableHead,
        Tag::TableRow => TagEnd::TableRow,
        Tag::TableCell => TagEnd::TableCell,
        Tag::Emphasis => TagEnd::Emphasis,
        Tag::Strong => TagEnd::Strong,
        Tag::Link(_) => TagEnd::Link,
        Tag::Image => TagEnd::Image,
    }
}

#[test]
fn parsed_events_are_well_nested() {
    let doc = "# T *i* **b**\n\n> quote *q*\n\n1. a\n   * [l](u) ~~s~~\n2. ![x](y)\n\n| A | B |\n|:-:|---|\n| `c` | **d** |\n\n```\ncode\n```\n\n---\n<b>html</b>\n";
    let events = parse(doc);
    let mut open: Vec<TagEnd> = Vec::new();
    for e in &events {
        match e {
            Event::Start(t) => open.push(end_of(t)),
            Event::End(t) => assert_eq!(open.pop(), Some(*t)),
            _ => {}
        }
    }
    assert!(open.is_empty());
    assert!(events.iter().any(|e| matches!(e, Event::Start(Tag::Paragraph))));
}

#[test]
fn top_level_blocks_concatenate() {
    assert_eq!(render("first\n\nsecond\n"), render("first\n") + &render("second\n"));
    assert_eq!(
        render("# T **b**\n\n* a\n* b\n"),
        render("# T **b**\n") + &render("* a\n* b\n")
    );
    assert_eq!(
        render("| A |\n|---|\n| b |\n\n```\nx\n```\n"),
        render("| A |\n|---|\n| b |\n") + &render("```\nx\n```\n")
    );
}

#[test]
fn nested_run_of_events_concatenates() {
    let first = vec![
        Event::Start(Tag::Strong),
        Event::Start(Tag::Link("u".to_string())),
        Event::Text("a".to_string()),
        Event::End(TagEnd::Link),
        Event::End(TagEnd::Strong),
    ];
    let second = vec![Event::Code("c".to_string())];
    let mut both = Vec::new();
    both.extend(first.iter().map(copy_event));
    both.extend(second.iter().map(copy_event));
    assert_eq!(render_events(&both), render_events(&first) + &render_events(&second));
}

fn copy_event(e: &Event) -> Event {
    match e {
        Event::Start(Tag::Strong) => Event::Start(Tag::Strong),
        Event::Start(Tag::Link(u)) => Event::Start(Tag::Link(u.clone())),
        Event::End(t) => Event::End(*t),
        Event::Text(t) => Event::Text(t.clone()),
        Event::Code(t) => Event::Code(t.clone()),
        _ => Event::Other,
    }
}

/// The last escape sequence of `out`, if any.
fn last_escape(out: &str) -> Option<&str> {
    let start = out.rfind('\x1b')?;
    let rest = &out[start..];
    let end = rest
        .char_indices()
        .skip(2)
        .find(|(_, c)| ('@'..='~').contains(c))
        .map(|(i, _)| i + 1)?;
    Some(&rest[..end])
}

#[test]
fn every_opened_style_is_closed() {
    let docs = [
        "# T *i* **b**\n",
        "**[a](u) b**\n",
        "*a `c` b*\n",
        "![x](y)\n",
        "| A | **B** |\n|---|---|\n| *c* | `d` |\n",
        "```\ncode\n```\n",
        "1. **a**\n   * *b*\n",
        "plain text\n",
    ];
    for doc in docs {
        let out = render(doc);
        match last_escape(&out) {
            None => {}
            Some(code) => assert_eq!(code, "\x1b[0m", "{:?}", doc),
        }
    }
}

#[test]
fn loose_nested_list_gets_no_extra_blank_line() {
    assert_eq!(render("* a\n\n  * b\n"), "\u{2022} a\n\n  \u{2022} b\n\n\n");
}
