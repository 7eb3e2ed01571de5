//! Rendering a run of document events as styled terminal text.
use vstd::prelude::*;
use crate::event::{
    end_of, Event, SpecEvent, SpecTag, Tag, TagEnd, events_view, open_elements, well_nested,
};
use crate::style::{
    bold_code, dim_code, heading_code, heading_style, italic_code, lemma_style_codes, reset_code,
    reverse_code, underline_code, BOLD, DIM, ITALIC, RESET, REVERSE, UNDERLINE,
};
use crate::table::{
    closed_off, lemma_quiet_closed_off, lemma_table_text_closed_off, render_table,
    rows_closed_off, Alignment, SpecTable, TableState, table_text,
};
use crate::markdown::{markdown_events, parse, start_below_billion};
use crate::style::{lemma_heading_code_is_code, lemma_sgr_is_code};
use crate::text::{
    append_copies, append_decimal, code_scan, copies, decimal, is_code, last_code,
    lemma_code_scan_concat, lemma_quiet_code_scan, lemma_quiet_concat, lemma_quiet_pieces, quiet,
    ScanState,
};

verus! {

/// What the renderer remembers between events, as plain values: the styles in force (the
/// innermost last), the open lists with the number of their next item (`None` for bullet
/// lists), whether an image's text is being read, the destination of the open link, the
/// table being read, if any, and whether the last line drawn is still open (something has
/// been drawn on it after the last newline).
pub struct SpecState {
    pub styles: Seq<Seq<char>>,
    pub lists: Seq<Option<u64>>,
    pub in_image: bool,
    pub link_url: Option<Seq<char>>,
    pub table: Option<SpecTable>,
    pub line_open: bool,
}

/// The state before the first event.
pub open spec fn initial_state() -> SpecState {
    SpecState {
        styles: Seq::empty(),
        lists: Seq::empty(),
        in_image: false,
        link_url: None,
        table: None,
        line_open: false,
    }
}

/// The pieces of text one after the other.
pub open spec fn concat_all(parts: Seq<Seq<char>>) -> Seq<char>
    decreases parts.len(),
{
    if parts.len() == 0 {
        Seq::empty()
    } else {
        concat_all(parts.drop_last()) + parts.last()
    }
}

/// The sequence without its last element (an empty one stays empty).
pub open spec fn popped<T>(s: Seq<T>) -> Seq<T> {
    if s.len() > 0 {
        s.drop_last()
    } else {
        s
    }
}

/// The table with its cell text extended by `more`.
pub open spec fn cell_extended(t: SpecTable, more: Seq<char>) -> SpecTable {
    SpecTable {
        alignments: t.alignments,
        rows: t.rows,
        current_row: t.current_row,
        current_cell: t.current_cell + more,
    }
}

/// One event read inside a table: rows and cells are collected, inline text (code, bold,
/// italic) goes into the current cell, and the end of the table draws it and leaves table
/// mode (`None`). Anything else inside a table is ignored.
pub open spec fn table_step(t: SpecTable, e: SpecEvent) -> (Option<SpecTable>, Seq<char>) {
    match e {
        SpecEvent::Start(SpecTag::TableHead) | SpecEvent::Start(SpecTag::TableRow) => (
            Some(
                SpecTable {
                    alignments: t.alignments,
                    rows: t.rows,
                    current_row: Seq::empty(),
                    current_cell: t.current_cell,
                },
            ),
            Seq::empty(),
        ),
        SpecEvent::End(TagEnd::TableHead) | SpecEvent::End(TagEnd::TableRow) => (
            Some(
                SpecTable {
                    alignments: t.alignments,
                    rows: t.rows.push(t.current_row),
                    current_row: Seq::empty(),
                    current_cell: t.current_cell,
                },
            ),
            Seq::empty(),
        ),
        SpecEvent::Start(SpecTag::TableCell) => (
            Some(
                SpecTable {
                    alignments: t.alignments,
                    rows: t.rows,
                    current_row: t.current_row,
                    current_cell: Seq::empty(),
                },
            ),
            Seq::empty(),
        ),
        SpecEvent::End(TagEnd::TableCell) => (
            Some(
                SpecTable {
                    alignments: t.alignments,
                    rows: t.rows,
                    current_row: t.current_row.push(t.current_cell),
                    current_cell: Seq::empty(),
                },
            ),
            Seq::empty(),
        ),
        SpecEvent::End(TagEnd::Table) => (None, table_text(t.alignments, t.rows)),
        SpecEvent::Text(x) => (Some(cell_extended(t, x)), Seq::empty()),
        SpecEvent::Code(x) => (
            Some(cell_extended(t, reverse_code() + x + reset_code())),
            Seq::empty(),
        ),
        SpecEvent::Start(SpecTag::Strong) => (Some(cell_extended(t, bold_code())), Seq::empty()),
        SpecEvent::End(TagEnd::Strong) => (Some(cell_extended(t, reset_code())), Seq::empty()),
        SpecEvent::Start(SpecTag::Emphasis) => (
            Some(cell_extended(t, italic_code())),
            Seq::empty(),
        ),
        SpecEvent::End(TagEnd::Emphasis) => (Some(cell_extended(t, reset_code())), Seq::empty()),
        _ => (Some(t), Seq::empty()),
    }
}

/// The text that starts a list item: two blanks per enclosing list, then the item's number
/// and a dot for an ordered list, or a bullet.
pub open spec fn item_marker(lists: Seq<Option<u64>>) -> Seq<char> {
    let indent = copies(
        seq![' ', ' '],
        if lists.len() > 0 {
            (lists.len() - 1) as nat
        } else {
            0
        },
    );
    if lists.len() > 0 && lists.last() is Some {
        indent + decimal(lists.last()->0 as nat) + seq!['.', ' ']
    } else {
        indent + seq!['\u{2022}', ' ']
    }
}

/// The open lists once an item has started: an ordered list counts on.
pub open spec fn lists_after_item(lists: Seq<Option<u64>>) -> Seq<Option<u64>> {
    if lists.len() > 0 && lists.last() is Some {
        lists.update(lists.len() - 1, Some((lists.last()->0 + 1) as u64))
    } else {
        lists
    }
}

/// The state with its innermost style closed.
pub open spec fn style_closed(s: SpecState) -> SpecState {
    SpecState { styles: popped(s.styles), ..s }
}

/// One event read outside any table, with the text it draws. A list that opens inside
/// another first ends the line of the enclosing item if that line is still open, so each
/// nested item starts a line of its own.
pub open spec fn flow_step(s: SpecState, e: SpecEvent) -> (SpecState, Seq<char>) {
    let newline = seq!['\n'];
    match e {
        SpecEvent::Start(SpecTag::Table(a)) => (
            SpecState {
                table: Some(
                    SpecTable {
                        alignments: a,
                        rows: Seq::empty(),
                        current_row: Seq::empty(),
                        current_cell: Seq::empty(),
                    },
                ),
                ..s
            },
            Seq::empty(),
        ),
        SpecEvent::Start(SpecTag::Heading(level)) => (
            SpecState { styles: s.styles.push(heading_code(level)), ..s },
            heading_code(level),
        ),
        SpecEvent::End(TagEnd::Heading) => (style_closed(s), reset_code() + newline + newline),
        SpecEvent::Start(SpecTag::CodeBlock) => (s, dim_code()),
        SpecEvent::End(TagEnd::CodeBlock) => (s, reset_code() + newline + newline),
        SpecEvent::Start(SpecTag::List(start)) => (
            SpecState { lists: s.lists.push(start), ..s },
            if s.lists.len() > 0 && s.line_open {
                newline
            } else {
                Seq::empty()
            },
        ),
        SpecEvent::End(TagEnd::List) => (
            SpecState { lists: popped(s.lists), ..s },
            if popped(s.lists).len() == 0 {
                newline
            } else {
                Seq::empty()
            },
        ),
        SpecEvent::Start(SpecTag::Item) => (
            SpecState { lists: lists_after_item(s.lists), ..s },
            item_marker(s.lists),
        ),
        SpecEvent::End(TagEnd::Item) => (s, newline),
        SpecEvent::End(TagEnd::Paragraph) => (s, newline + newline),
        SpecEvent::Start(SpecTag::Emphasis) => (
            SpecState { styles: s.styles.push(italic_code()), ..s },
            italic_code(),
        ),
        SpecEvent::End(TagEnd::Emphasis) => (
            style_closed(s),
            reset_code() + concat_all(popped(s.styles)),
        ),
        SpecEvent::Start(SpecTag::Strong) => (
            SpecState { styles: s.styles.push(bold_code()), ..s },
            bold_code(),
        ),
        SpecEvent::End(TagEnd::Strong) => (
            style_closed(s),
            reset_code() + concat_all(popped(s.styles)),
        ),
        SpecEvent::Start(SpecTag::Link(url)) => (
            SpecState { styles: s.styles.push(underline_code()), link_url: Some(url), ..s },
            underline_code(),
        ),
        SpecEvent::End(TagEnd::Link) => (
            SpecState { styles: popped(s.styles), link_url: None, ..s },
            reset_code() + match s.link_url {
                Some(url) => seq![' ', '('] + url + seq![')'],
                None => Seq::empty(),
            } + concat_all(popped(s.styles)),
        ),
        SpecEvent::Start(SpecTag::Image) => (SpecState { in_image: true, ..s }, dim_code()),
        SpecEvent::End(TagEnd::Image) => (SpecState { in_image: false, ..s }, reset_code()),
        SpecEvent::Code(x) => (s, reverse_code() + x + reset_code() + concat_all(s.styles)),
        SpecEvent::Text(x) => (
            s,
            if s.in_image {
                seq!['['] + x + seq![']']
            } else {
                x
            },
        ),
        SpecEvent::SoftBreak => (s, newline),
        SpecEvent::HardBreak => (s, newline),
        _ => (s, Seq::empty()),
    }
}

/// One event: read by the table while one is open, by the flow of text otherwise. The last
/// line is open after the event when what it draws does not end with a newline (or, when it
/// draws nothing, as it was before).
pub open spec fn step(s: SpecState, e: SpecEvent) -> (SpecState, Seq<char>) {
    let (next, out) = match s.table {
        Some(t) => {
            let (next_table, out) = table_step(t, e);
            (SpecState { table: next_table, ..s }, out)
        },
        None => flow_step(s, e),
    };
    (SpecState { line_open: line_open_after(s.line_open, out), ..next }, out)
}

/// Whether the last line is open once `out` is drawn after a line that was open or not.
pub open spec fn line_open_after(open: bool, out: Seq<char>) -> bool {
    if out.len() > 0 {
        out.last() != '\n'
    } else {
        open
    }
}

/// The state after a run of events and the text they draw, starting from `s`.
pub open spec fn run(s: SpecState, events: Seq<SpecEvent>) -> (SpecState, Seq<char>)
    decreases events.len(),
{
    if events.len() == 0 {
        (s, Seq::empty())
    } else {
        let (mid, before) = run(s, events.drop_last());
        let (last, out) = step(mid, events.last());
        (last, before + out)
    }
}

/// The text drawn for a whole document.
pub open spec fn rendered(events: Seq<SpecEvent>) -> Seq<char> {
    run(initial_state(), events).1
}

/// What the renderer remembers between events.
pub struct RenderState {
    style_stack: Vec<&'static str>,
    list_stack: Vec<Option<u64>>,
    in_image: bool,
    link_url: Option<String>,
    table: Option<TableState>,
    line_open: bool,
}

/// The text of each style.
pub open spec fn styles_view(styles: Seq<&'static str>) -> Seq<Seq<char>> {
    styles.map_values(|s: &'static str| s@)
}

impl View for RenderState {
    type V = SpecState;

    closed spec fn view(&self) -> SpecState {
        SpecState {
            styles: styles_view(self.style_stack@),
            lists: self.list_stack@,
            in_image: self.in_image,
            link_url: match self.link_url {
                Some(u) => Some(u@),
                None => None,
            },
            table: match self.table {
                Some(t) => Some(t@),
                None => None,
            },
            line_open: self.line_open,
        }
    }
}

/// Appends every style in force, outermost first.
fn append_styles(out: &mut String, styles: &Vec<&'static str>)
    ensures
        final(out)@ == old(out)@ + concat_all(styles_view(styles@)),
{
    let ghost start = out@;
    let mut i: usize = 0;
    while i < styles.len()
        invariant
            i <= styles.len(),
            out@ == start + concat_all(styles_view(styles@.take(i as int))),
        decreases styles.len() - i,
    {
        out.append(styles[i]);
        proof {
            let v = styles_view(styles@.take(i + 1));
            assert(v.drop_last() =~= styles_view(styles@.take(i as int)));
            assert(v.last() == styles@[i as int]@);
            assert(out@ =~= start + concat_all(v));
        }
        i = i + 1;
    }
    proof {
        assert(styles@.take(i as int) =~= styles@);
    }
}

/// Reads one event inside a table, appending what it draws; returns whether the table
/// ended (its text is then drawn and it is no longer in use).
fn table_event(tbl: &mut TableState, event: &Event, out: &mut String) -> (ended: bool)
    ensures
        ended == (table_step(old(tbl)@, event@).0 is None),
        !ended ==> final(tbl)@ == table_step(old(tbl)@, event@).0->0,
        final(out)@ == old(out)@ + table_step(old(tbl)@, event@).1,
{
    proof {
        lemma_style_codes();
    }
    match event {
        Event::Start(Tag::TableHead) | Event::Start(Tag::TableRow) => {
            tbl.current_row = Vec::new();
            assert(tbl@.current_row =~= Seq::<Seq<char>>::empty());
        },
        Event::End(TagEnd::TableHead) | Event::End(TagEnd::TableRow) => {
            let mut row: Vec<String> = Vec::new();
            std::mem::swap(&mut row, &mut tbl.current_row);
            tbl.rows.push(row);
            assert(tbl@.rows =~= old(tbl)@.rows.push(old(tbl)@.current_row));
            assert(tbl@.current_row =~= Seq::<Seq<char>>::empty());
        },
        Event::Start(Tag::TableCell) => {
            tbl.current_cell = String::new();
        },
        Event::End(TagEnd::TableCell) => {
            let mut cell = String::new();
            std::mem::swap(&mut cell, &mut tbl.current_cell);
            tbl.current_row.push(cell);
            assert(tbl@.current_row =~= old(tbl)@.current_row.push(old(tbl)@.current_cell));
        },
        Event::End(TagEnd::Table) => {
            let drawn = render_table(tbl);
            out.append(drawn.as_str());
            return true;
        },
        Event::Text(text) => {
            tbl.current_cell.append(text.as_str());
        },
        Event::Code(text) => {
            tbl.current_cell.append(REVERSE);
            tbl.current_cell.append(text.as_str());
            tbl.current_cell.append(RESET);
            assert(tbl@.current_cell =~= old(tbl)@.current_cell + (reverse_code() + text@
                + reset_code()));
        },
        Event::Start(Tag::Strong) => {
            tbl.current_cell.append(BOLD);
        },
        Event::End(TagEnd::Strong) => {
            tbl.current_cell.append(RESET);
        },
        Event::Start(Tag::Emphasis) => {
            tbl.current_cell.append(ITALIC);
        },
        Event::End(TagEnd::Emphasis) => {
            tbl.current_cell.append(RESET);
        },
        _ => {},
    }
    assert(out@ =~= old(out)@ + table_step(old(tbl)@, event@).1);
    false
}

/// The next item of the innermost open list can be numbered without leaving `u64`.
pub open spec fn can_count(lists: Seq<Option<u64>>) -> bool {
    lists.len() > 0 && lists.last() is Some ==> lists.last()->0 < u64::MAX
}

/// Appends the marker of a new list item and counts the item.
fn start_item(lists: &mut Vec<Option<u64>>, out: &mut String)
    requires
        can_count(old(lists)@),
    ensures
        final(lists)@ == lists_after_item(old(lists)@),
        final(out)@ == old(out)@ + item_marker(old(lists)@),
{
    proof {
        reveal_strlit("  ");
        reveal_strlit(". ");
        reveal_strlit("\u{2022} ");
        assert("  "@ =~= seq![' ', ' ']);
        assert(". "@ =~= seq!['.', ' ']);
        assert("\u{2022} "@ =~= seq!['\u{2022}', ' ']);
    }
    let depth = lists.len();
    let indent = if depth > 0 {
        depth - 1
    } else {
        0
    };
    append_copies(out, "  ", indent);
    let last = if depth > 0 {
        lists[depth - 1]
    } else {
        None
    };
    match last {
        Some(n) => {
            append_decimal(out, n);
            out.append(". ");
            lists.set(depth - 1, Some(n + 1));
        },
        None => {
            out.append("\u{2022} ");
        },
    }
    assert(out@ =~= old(out)@ + item_marker(old(lists)@));
}

/// Copies the alignments of a table's columns.
fn copy_alignments(alignments: &Vec<Alignment>) -> (copy: Vec<Alignment>)
    ensures
        copy@ == alignments@,
{
    let mut copy: Vec<Alignment> = Vec::new();
    let mut i: usize = 0;
    while i < alignments.len()
        invariant
            i <= alignments.len(),
            copy@ == alignments@.take(i as int),
        decreases alignments.len() - i,
    {
        copy.push(alignments[i]);
        proof {
            assert(alignments@.take(i + 1) =~= alignments@.take(i as int).push(alignments@[i as int]));
        }
        i = i + 1;
    }
    proof {
        assert(alignments@.take(i as int) =~= alignments@);
    }
    copy
}

/// Reads one event outside any table, appending what it draws.
fn flow_event(state: &mut RenderState, event: &Event, out: &mut String)
    requires
        old(state)@.table is None,
        event@ == SpecEvent::Start(SpecTag::Item) ==> can_count(old(state)@.lists),
    ensures
        final(state)@ == flow_step(old(state)@, event@).0,
        final(out)@ == old(out)@ + flow_step(old(state)@, event@).1,
{
    proof {
        lemma_style_codes();
        reveal_strlit("\n");
        reveal_strlit("\n\n");
        reveal_strlit(" (");
        reveal_strlit(")");
        reveal_strlit("[");
        reveal_strlit("]");
        assert("\n"@ =~= seq!['\n']);
        assert("\n\n"@ =~= seq!['\n', '\n']);
    }
    let ghost s0 = state@;
    match event {
        Event::Start(Tag::Table(alignments)) => {
            state.table = Some(
                TableState {
                    alignments: copy_alignments(alignments),
                    rows: Vec::new(),
                    current_row: Vec::new(),
                    current_cell: String::new(),
                },
            );
            assert(state@.table->0.rows =~= Seq::<Seq<Seq<char>>>::empty());
            assert(state@.table->0.current_row =~= Seq::<Seq<char>>::empty());
        },
        Event::Start(Tag::Heading(level)) => {
            let style = heading_style(*level);
            state.style_stack.push(style);
            out.append(style);
            assert(state@.styles =~= s0.styles.push(heading_code(*level)));
        },
        Event::End(TagEnd::Heading) => {
            state.style_stack.pop();
            out.append(RESET);
            out.append("\n\n");
            assert(state@.styles =~= popped(s0.styles));
        },
        Event::Start(Tag::CodeBlock) => {
            out.append(DIM);
        },
        Event::End(TagEnd::CodeBlock) => {
            out.append(RESET);
            out.append("\n\n");
        },
        Event::Start(Tag::List(start)) => {
            if state.list_stack.len() > 0 && state.line_open {
                out.append("\n");
            }
            state.list_stack.push(*start);
        },
        Event::End(TagEnd::List) => {
            state.list_stack.pop();
            if state.list_stack.len() == 0 {
                out.append("\n");
            }
            assert(state@.lists =~= popped(s0.lists));
        },
        Event::Start(Tag::Item) => {
            start_item(&mut state.list_stack, out);
        },
        Event::End(TagEnd::Item) => {
            out.append("\n");
        },
        Event::End(TagEnd::Paragraph) => {
            out.append("\n\n");
        },
        Event::Start(Tag::Emphasis) => {
            state.style_stack.push(ITALIC);
            out.append(ITALIC);
            assert(state@.styles =~= s0.styles.push(italic_code()));
        },
        Event::Start(Tag::Strong) => {
            state.style_stack.push(BOLD);
            out.append(BOLD);
            assert(state@.styles =~= s0.styles.push(bold_code()));
        },
        Event::End(TagEnd::Emphasis) | Event::End(TagEnd::Strong) => {
            state.style_stack.pop();
            out.append(RESET);
            assert(state@.styles =~= popped(s0.styles));
            append_styles(out, &state.style_stack);
        },
        Event::Start(Tag::Link(url)) => {
            state.style_stack.push(UNDERLINE);
            out.append(UNDERLINE);
            state.link_url = Some(url.clone());
            assert(state@.styles =~= s0.styles.push(underline_code()));
        },
        Event::End(TagEnd::Link) => {
            state.style_stack.pop();
            out.append(RESET);
            assert(state@.styles =~= popped(s0.styles));
            let url = state.link_url.take();
            match url {
                Some(u) => {
                    out.append(" (");
                    out.append(u.as_str());
                    out.append(")");
                },
                None => {},
            }
            append_styles(out, &state.style_stack);
        },
        Event::Start(Tag::Image) => {
            state.in_image = true;
            out.append(DIM);
        },
        Event::End(TagEnd::Image) => {
            state.in_image = false;
            out.append(RESET);
        },
        Event::Code(text) => {
            out.append(REVERSE);
            out.append(text.as_str());
            out.append(RESET);
            append_styles(out, &state.style_stack);
        },
        Event::Text(text) => {
            if state.in_image {
                out.append("[");
                out.append(text.as_str());
                out.append("]");
            } else {
                out.append(text.as_str());
            }
        },
        Event::SoftBreak | Event::HardBreak => {
            out.append("\n");
        },
        _ => {},
    }
    assert(out@ =~= old(out)@ + flow_step(s0, event@).1);
}

/// Reads one event, appending what it draws.
fn step_event(state: &mut RenderState, event: &Event, out: &mut String)
    requires
        counts_on(old(state)@, event@),
    ensures
        final(state)@ == step(old(state)@, event@).0,
        final(out)@ == old(out)@ + step(old(state)@, event@).1,
{
    let ghost s0 = state@;
    let mut piece = String::new();
    let current = state.table.take();
    match current {
        Some(mut tbl) => {
            let ended = table_event(&mut tbl, event, &mut piece);
            if !ended {
                state.table = Some(tbl);
            }
        },
        None => {
            flow_event(state, event, &mut piece);
        },
    }
    assert(piece@ =~= step(s0, event@).1);
    let n = piece.as_str().unicode_len();
    if n > 0 {
        state.line_open = piece.as_str().get_char(n - 1) != '\n';
    }
    out.append(piece.as_str());
}

/// Reading `e` in state `s` does not number a list item past the largest `u64`.
pub open spec fn counts_on(s: SpecState, e: SpecEvent) -> bool {
    (s.table is None && e == SpecEvent::Start(SpecTag::Item)) ==> can_count(s.lists)
}

/// No list item of the run is numbered past the largest `u64`.
pub open spec fn numbering_fits(events: Seq<SpecEvent>) -> bool {
    forall|i: int|
        0 <= i < events.len() ==> counts_on(
            run(initial_state(), events.take(i)).0,
            #[trigger] events[i],
        )
}

/// Renders a run of document events as styled terminal text.
pub fn render_events(events: &[Event]) -> (out: String)
    requires
        numbering_fits(events_view(events@)),
    ensures
        out@ == rendered(events_view(events@)),
{
    let ghost all = events_view(events@);
    let mut state = RenderState {
        style_stack: Vec::new(),
        list_stack: Vec::new(),
        in_image: false,
        link_url: None,
        table: None,
        line_open: false,
    };
    let mut out = String::new();
    proof {
        assert(state@.styles =~= Seq::<Seq<char>>::empty());
        assert(state@.lists =~= Seq::<Option<u64>>::empty());
        assert(all.take(0) =~= Seq::<SpecEvent>::empty());
        assert(out@ =~= Seq::<char>::empty());
    }
    let mut i: usize = 0;
    while i < events.len()
        invariant
            all == events_view(events@),
            numbering_fits(all),
            i <= events.len(),
            state@ == run(initial_state(), all.take(i as int)).0,
            out@ == run(initial_state(), all.take(i as int)).1,
        decreases events.len() - i,
    {
        proof {
            assert(events@[i as int]@ == all[i as int]);
            assert(all.take(i + 1).drop_last() =~= all.take(i as int));
            assert(all.take(i + 1).last() == all[i as int]);
            assert(counts_on(run(initial_state(), all.take(i as int)).0, all[i as int]));
        }
        step_event(&mut state, &events[i], &mut out);
        i = i + 1;
    }
    proof {
        assert(all.take(i as int) =~= all);
    }
    out
}

/// No list's numbering can outgrow `u64` while the given number of events is still to come:
/// each item adds one to the number of the list it belongs to.
pub open spec fn counters_fit(lists: Seq<Option<u64>>, remaining: nat) -> bool {
    forall|k: int|
        0 <= k < lists.len() && #[trigger] lists[k] is Some ==> lists[k]->0 + remaining
            <= u64::MAX
}

/// Every ordered list in `events` starts low enough that numbering one item per event cannot
/// outgrow `u64`.
pub open spec fn list_starts_fit(events: Seq<SpecEvent>) -> bool {
    forall|k: int| 0 <= k < events.len() ==> start_fits(#[trigger] events[k], events.len())
}

/// An event that opens an ordered list starts it at most `bound` below the largest `u64`.
pub open spec fn start_fits(e: SpecEvent, bound: nat) -> bool {
    match e {
        SpecEvent::Start(SpecTag::List(Some(n))) => n + bound <= u64::MAX,
        _ => true,
    }
}

proof fn lemma_step_keeps_counters_fit(s: SpecState, e: SpecEvent, remaining: nat, bound: nat)
    requires
        counters_fit(s.lists, remaining + 1),
        start_fits(e, bound),
        remaining + 1 <= bound,
    ensures
        counters_fit(step(s, e).0.lists, remaining),
{
    let next = step(s, e).0.lists;
    assert forall|k: int| 0 <= k < next.len() && #[trigger] next[k] is Some implies next[k]->0
        + remaining <= u64::MAX by {
        if s.table is None {
            match e {
                SpecEvent::Start(SpecTag::List(start)) => {
                    if k < s.lists.len() {
                        assert(next[k] == s.lists[k]);
                    }
                },
                SpecEvent::End(TagEnd::List) => {
                    assert(next[k] == s.lists[k]);
                },
                SpecEvent::Start(SpecTag::Item) => {
                    assert(s.lists[k] is Some);
                },
                _ => {},
            }
        }
    }
}

/// When every ordered list starts low enough, the numbers of the open lists stay far enough
/// from the largest `u64` for the events still to come.
proof fn lemma_counters_fit_along(events: Seq<SpecEvent>, i: int)
    requires
        list_starts_fit(events),
        0 <= i <= events.len(),
    ensures
        counters_fit(run(initial_state(), events.take(i)).0.lists, (events.len() - i) as nat),
    decreases i,
{
    if i > 0 {
        lemma_counters_fit_along(events, i - 1);
        assert(events.take(i).drop_last() =~= events.take(i - 1));
        assert(events.take(i).last() == events[i - 1]);
        assert(start_fits(events[i - 1], events.len()));
        lemma_step_keeps_counters_fit(
            run(initial_state(), events.take(i - 1)).0,
            events[i - 1],
            (events.len() - i) as nat,
            events.len(),
        );
    }
}

/// When every ordered list starts low enough, no item is numbered past the largest `u64`.
pub proof fn lemma_starts_fit_numbering(events: Seq<SpecEvent>)
    requires
        list_starts_fit(events),
    ensures
        numbering_fits(events),
{
    assert forall|i: int| 0 <= i < events.len() implies counts_on(
        run(initial_state(), events.take(i)).0,
        #[trigger] events[i],
    ) by {
        lemma_counters_fit_along(events, i);
        let lists = run(initial_state(), events.take(i)).0.lists;
        if lists.len() > 0 && lists.last() is Some {
            assert(lists[lists.len() - 1] is Some);
        }
    }
}

/// Renders Markdown as styled terminal text: the events that pulldown-cmark reads from it,
/// drawn one after the other.
pub fn render(markdown: &str) -> (out: String)
    ensures
        out@ == rendered(markdown_events(markdown@)),
{
    let events = parse(markdown);
    proof {
        let all = events_view(events@);
        assert forall|k: int| 0 <= k < all.len() implies start_fits(
            #[trigger] all[k],
            all.len(),
        ) by {
            assert(start_below_billion(all[k]));
        }
        lemma_starts_fit_numbering(all);
    }
    render_events(events.as_slice())
}

/// How many of the open elements are of the given kind.
pub open spec fn count_open(open: Seq<TagEnd>, kind: spec_fn(TagEnd) -> bool) -> nat
    decreases open.len(),
{
    if open.len() == 0 {
        0
    } else {
        count_open(open.drop_last(), kind) + if kind(open.last()) {
            1nat
        } else {
            0nat
        }
    }
}

/// The elements that put a style in force: headings, emphasis, strong text and links.
pub open spec fn is_style_kind(e: TagEnd) -> bool {
    e is Heading || e is Emphasis || e is Strong || e is Link
}

/// What the state remembers is accounted for by the open elements `open`: no more styles
/// than open styled elements, no more lists than open lists, a link destination only inside
/// a link and image text only inside an image.
pub open spec fn accounted(s: SpecState, open: Seq<TagEnd>) -> bool {
    &&& s.styles.len() <= count_open(open, |e: TagEnd| is_style_kind(e))
    &&& s.lists.len() <= count_open(open, |e: TagEnd| e is List)
    &&& s.link_url is Some ==> count_open(open, |e: TagEnd| e is Link) > 0
    &&& s.in_image ==> count_open(open, |e: TagEnd| e is Image) > 0
}

/// The state after reading while `open` is open: outside a table it is accounted for by
/// all open elements; inside a table, by those opened before the table it is reading.
pub open spec fn tracks(s: SpecState, open: Seq<TagEnd>) -> bool {
    match s.table {
        None => accounted(s, open),
        Some(_) => exists|j: int|
            0 <= j < open.len() && open[j] == TagEnd::Table && #[trigger] accounted(
                s,
                open.take(j),
            ),
    }
}

proof fn lemma_count_push(open: Seq<TagEnd>, x: TagEnd, kind: spec_fn(TagEnd) -> bool)
    ensures
        count_open(open.push(x), kind) == count_open(open, kind) + if kind(x) {
            1nat
        } else {
            0nat
        },
{
    assert(open.push(x).drop_last() =~= open);
}

proof fn lemma_count_prefix(open: Seq<TagEnd>, j: int, kind: spec_fn(TagEnd) -> bool)
    requires
        0 <= j <= open.len(),
    ensures
        count_open(open.take(j), kind) <= count_open(open, kind),
    decreases open.len(),
{
    if j < open.len() {
        lemma_count_prefix(open.drop_last(), j, kind);
        assert(open.drop_last().take(j) =~= open.take(j));
    } else {
        assert(open.take(j) =~= open);
    }
}

proof fn lemma_accounted_prefix(s: SpecState, open: Seq<TagEnd>, j: int)
    requires
        0 <= j <= open.len(),
        accounted(s, open.take(j)),
    ensures
        accounted(s, open),
{
    lemma_count_prefix(open, j, |e: TagEnd| is_style_kind(e));
    lemma_count_prefix(open, j, |e: TagEnd| e is List);
    lemma_count_prefix(open, j, |e: TagEnd| e is Link);
    lemma_count_prefix(open, j, |e: TagEnd| e is Image);
}

/// Reading an event that keeps the elements well nested keeps the state accounted for.
proof fn lemma_step_tracks(s: SpecState, open: Seq<TagEnd>, e: SpecEvent, open2: Seq<TagEnd>)
    requires
        tracks(s, open),
        match e {
            SpecEvent::Start(t) => open2 == open.push(end_of(t)),
            SpecEvent::End(x) => open.len() > 0 && open.last() == x && open2 == open.drop_last(),
            _ => open2 == open,
        },
    ensures
        tracks(step(s, e).0, open2),
{
    let s2 = step(s, e).0;
    let styles = |x: TagEnd| is_style_kind(x);
    let lists = |x: TagEnd| x is List;
    let links = |x: TagEnd| x is Link;
    let images = |x: TagEnd| x is Image;
    match s.table {
        None => {
            match e {
                SpecEvent::Start(t) => {
                    lemma_count_push(open, end_of(t), styles);
                    lemma_count_push(open, end_of(t), lists);
                    lemma_count_push(open, end_of(t), links);
                    lemma_count_push(open, end_of(t), images);
                    if let SpecTag::Table(_) = t {
                        assert(open2.take(open.len() as int) =~= open);
                        assert(accounted(s2, open2.take(open.len() as int)));
                    }
                },
                SpecEvent::End(x) => {
                    assert(open2.push(x) =~= open);
                    lemma_count_push(open2, x, styles);
                    lemma_count_push(open2, x, lists);
                    lemma_count_push(open2, x, links);
                    lemma_count_push(open2, x, images);
                },
                _ => {},
            }
        },
        Some(t) => {
            let j = choose|j: int|
                0 <= j < open.len() && open[j] == TagEnd::Table && #[trigger] accounted(
                    s,
                    open.take(j),
                );
            assert(s2.styles == s.styles && s2.lists == s.lists && s2.link_url == s.link_url
                && s2.in_image == s.in_image);
            match e {
                SpecEvent::Start(tag) => {
                    assert(open2.take(j) =~= open.take(j));
                    assert(open2[j] == open[j]);
                    assert(accounted(s2, open2.take(j)));
                },
                SpecEvent::End(x) => {
                    if x == TagEnd::Table {
                        assert(open2.take(j) =~= open.take(j));
                        assert(accounted(s2, open2.take(j)));
                        lemma_accounted_prefix(s2, open2, j);
                    } else {
                        assert(j < open2.len());
                        assert(open2.take(j) =~= open.take(j));
                        assert(open2[j] == open[j]);
                        assert(accounted(s2, open2.take(j)));
                    }
                },
                _ => {
                    assert(accounted(s2, open2.take(j)));
                },
            }
        },
    }
}

proof fn lemma_run_tracks(events: Seq<SpecEvent>)
    requires
        open_elements(events) is Some,
    ensures
        tracks(run(initial_state(), events).0, open_elements(events)->0),
    decreases events.len(),
{
    if events.len() == 0 {
        let open = Seq::<TagEnd>::empty();
        assert(accounted(initial_state(), open));
    } else {
        let prev = events.drop_last();
        assert(open_elements(prev) is Some);
        lemma_run_tracks(prev);
        lemma_step_tracks(
            run(initial_state(), prev).0,
            open_elements(prev)->0,
            events.last(),
            open_elements(events)->0,
        );
    }
}

/// The state is the one before the first event, but for whether the last line is open.
pub open spec fn at_rest(s: SpecState) -> bool {
    s == SpecState { line_open: s.line_open, ..initial_state() }
}

/// Reading a well-nested run of events from the start leaves the renderer as it started,
/// but for whether the last line drawn is left open: no style is left in force, no list,
/// link or image is left open, and no table is being read.
pub proof fn lemma_nested_run_returns_to_start(events: Seq<SpecEvent>)
    requires
        well_nested(events),
    ensures
        at_rest(run(initial_state(), events).0),
{
    lemma_run_tracks(events);
    let s = run(initial_state(), events).0;
    let open = Seq::<TagEnd>::empty();
    assert(open_elements(events)->0 == open);
    assert(s.table is None);
    assert(s.styles =~= Seq::<Seq<char>>::empty());
    assert(s.lists =~= Seq::<Option<u64>>::empty());
}

/// Reading `a` then `b` from `s` is reading `b` from where `a` left off.
pub proof fn lemma_run_append(s: SpecState, a: Seq<SpecEvent>, b: Seq<SpecEvent>)
    ensures
        run(s, a + b).0 == run(run(s, a).0, b).0,
        run(s, a + b).1 == run(s, a).1 + run(run(s, a).0, b).1,
    decreases b.len(),
{
    if b.len() == 0 {
        assert(a + b =~= a);
    } else {
        lemma_run_append(s, a, b.drop_last());
        assert((a + b).drop_last() =~= a + b.drop_last());
        assert((a + b).last() == b.last());
    }
}

/// Event `k` of `b` opens a list inside another list, outside any table, before anything
/// of `b` has been drawn.
pub open spec fn nests_list_at(b: Seq<SpecEvent>, k: int) -> bool {
    &&& 0 <= k < b.len()
    &&& rendered(b.take(k)).len() == 0
    &&& run(initial_state(), b.take(k)).0.lists.len() > 0
    &&& run(initial_state(), b.take(k)).0.table is None
    &&& b[k] matches SpecEvent::Start(SpecTag::List(_))
}

/// Some list of `b` opens inside another before anything of `b` has been drawn.
pub open spec fn nests_list_first(b: Seq<SpecEvent>) -> bool {
    exists|k: int| #[trigger] nests_list_at(b, k)
}

/// The state `s` with its last line open or not as `open` says.
pub open spec fn with_line(s: SpecState, open: bool) -> SpecState {
    SpecState { line_open: open, ..s }
}

/// Whether the last line is open matters to an event only when it opens a list inside
/// another outside any table.
proof fn lemma_step_ignores_line(y: SpecState, open: bool, e: SpecEvent)
    requires
        !(y.table is None && y.lists.len() > 0 && e matches SpecEvent::Start(SpecTag::List(_))),
    ensures
        step(with_line(y, open), e).1 == step(y, e).1,
        step(with_line(y, open), e).0 == with_line(
            step(y, e).0,
            step(with_line(y, open), e).0.line_open,
        ),
{
    match y.table {
        Some(t) => {},
        None => {
            match e {
                SpecEvent::Start(SpecTag::List(_)) => {},
                _ => {},
            }
        },
    }
}

/// Reading `b` from the start and from the start with the last line open draws the same,
/// unless a list of `b` opens inside another before anything is drawn.
proof fn lemma_run_from_open_line(b: Seq<SpecEvent>, open: bool)
    requires
        !(open && nests_list_first(b)),
    ensures
        run(with_line(initial_state(), open), b).1 == run(initial_state(), b).1,
        run(initial_state(), b).1.len() > 0 ==> run(with_line(initial_state(), open), b).0 == run(
            initial_state(),
            b,
        ).0,
        run(initial_state(), b).1.len() == 0 ==> run(with_line(initial_state(), open), b).0
            == with_line(run(initial_state(), b).0, open),
        run(initial_state(), b).1.len() == 0 ==> !run(initial_state(), b).0.line_open,
    decreases b.len(),
{
    let x0 = with_line(initial_state(), open);
    if b.len() > 0 {
        let prev = b.drop_last();
        let e = b.last();
        if open && nests_list_first(prev) {
            let k = choose|k: int| #[trigger] nests_list_at(prev, k);
            assert(b.take(k) =~= prev.take(k));
            assert(b[k] == prev[k]);
            assert(nests_list_at(b, k));
        }
        lemma_run_from_open_line(prev, open);
        let (x, ox) = run(x0, prev);
        let (y, oy) = run(initial_state(), prev);
        if oy.len() > 0 {
            assert(x == y);
            assert(run(initial_state(), b).1 == oy + step(y, e).1);
        } else {
            let n = prev.len() as int;
            assert(prev =~= b.take(n));
            if open && y.table is None && y.lists.len() > 0 && e matches SpecEvent::Start(
                SpecTag::List(_),
            ) {
                assert(nests_list_at(b, n));
            }
            if !(y.table is None && y.lists.len() > 0 && e matches SpecEvent::Start(
                SpecTag::List(_),
            )) {
                lemma_step_ignores_line(y, open, e);
            } else {
                assert(!open);
                assert(x == y);
            }
            assert(ox =~= oy);
        }
    }
}

/// A well-nested run of events followed by any other draws what each draws on its own:
/// nothing of the first carries over into the second. The one exception is a first run
/// that leaves its last line open before a second that opens a list inside another before
/// drawing anything: that line is then ended first.
pub proof fn lemma_nested_blocks_concatenate(a: Seq<SpecEvent>, b: Seq<SpecEvent>)
    requires
        well_nested(a),
        !(run(initial_state(), a).0.line_open && nests_list_first(b)),
    ensures
        rendered(a + b) == rendered(a) + rendered(b),
{
    lemma_nested_run_returns_to_start(a);
    lemma_run_append(initial_state(), a, b);
    let sa = run(initial_state(), a).0;
    assert(sa == with_line(initial_state(), sa.line_open));
    lemma_run_from_open_line(b, sa.line_open);
}

/// An event that holds no escape character in its text, inline code or link destination.
pub open spec fn plain_event(e: SpecEvent) -> bool {
    match e {
        SpecEvent::Text(x) => quiet(x),
        SpecEvent::Code(x) => quiet(x),
        SpecEvent::Start(SpecTag::Link(url)) => quiet(url),
        _ => true,
    }
}

/// The elements whose drawing puts a style in force: headings, code blocks, emphasis,
/// strong text, links and images.
pub open spec fn is_styling_kind(e: TagEnd) -> bool {
    e is Heading || e is CodeBlock || e is Emphasis || e is Strong || e is Link || e is Image
}

/// No style is in force at the end of `out`: it has no escape sequence, or its last one is
/// the reset code.
pub open spec fn style_off(out: Seq<char>) -> bool {
    last_code(out) is None || last_code(out) == Some(reset_code())
}

/// Each remembered style is one whole escape sequence.
pub open spec fn all_codes(styles: Seq<Seq<char>>) -> bool {
    forall|k: int| 0 <= k < styles.len() ==> is_code(#[trigger] styles[k])
}

/// Outside a table: no more styles, lists, links or images are remembered than are open,
/// and a style is in force at the end of what has been drawn only inside an element that
/// draws one.
pub open spec fn flow_tracked(s: SpecState, out: Seq<char>, open: Seq<TagEnd>) -> bool {
    &&& accounted(s, open)
    &&& !style_off(out) ==> count_open(open, |e: TagEnd| is_styling_kind(e)) > 0
}

/// The open elements after the innermost open table cell (all of them when no cell is open).
pub open spec fn after_last_cell(open: Seq<TagEnd>) -> Seq<TagEnd>
    decreases open.len(),
{
    if open.len() == 0 {
        Seq::empty()
    } else if open.last() == TagEnd::TableCell {
        Seq::empty()
    } else {
        after_last_cell(open.drop_last()).push(open.last())
    }
}

/// Emphasis or strong text: what a table cell styles.
pub open spec fn is_cell_style_kind(e: TagEnd) -> bool {
    e is Emphasis || e is Strong
}

/// The table being read leaves no style in force in its finished rows and cells, and the
/// cell being filled has a style in force only inside emphasis or strong text opened in it.
pub open spec fn table_tracked(t: SpecTable, open: Seq<TagEnd>) -> bool {
    &&& rows_closed_off(t.rows)
    &&& forall|i: int| 0 <= i < t.current_row.len() ==> closed_off(#[trigger] t.current_row[i])
    &&& code_scan(t.current_cell).0 == ScanState::Plain
    &&& !closed_off(t.current_cell) ==> count_open(
        after_last_cell(open),
        |e: TagEnd| is_cell_style_kind(e),
    ) > 0
}

/// What has been drawn while `open` is open: it ends outside any escape sequence, and a
/// style is in force at its end only inside an element that draws one (inside a table, one
/// opened before the table being read). The remembered styles are whole escape sequences
/// and a remembered link destination holds no escape character.
pub open spec fn output_tracks(s: SpecState, out: Seq<char>, open: Seq<TagEnd>) -> bool {
    &&& code_scan(out).0 == ScanState::Plain
    &&& all_codes(s.styles)
    &&& s.link_url matches Some(url) ==> quiet(url)
    &&& match s.table {
        None => flow_tracked(s, out, open),
        Some(t) => {
            &&& table_tracked(t, open)
            &&& exists|j: int|
                0 <= j < open.len() && open[j] == TagEnd::Table && #[trigger] flow_tracked(
                    s,
                    out,
                    open.take(j),
                )
        },
    }
}

proof fn lemma_count_mono(open: Seq<TagEnd>, k1: spec_fn(TagEnd) -> bool, k2: spec_fn(TagEnd) -> bool)
    requires
        forall|e: TagEnd| #[trigger] k1(e) ==> k2(e),
    ensures
        count_open(open, k1) <= count_open(open, k2),
    decreases open.len(),
{
    if open.len() > 0 {
        lemma_count_mono(open.drop_last(), k1, k2);
    }
}

proof fn lemma_concat_codes(styles: Seq<Seq<char>>)
    requires
        all_codes(styles),
    ensures
        code_scan(concat_all(styles)).0 == ScanState::Plain,
        last_code(concat_all(styles)) == if styles.len() > 0 {
            Some(styles.last())
        } else {
            None
        },
    decreases styles.len(),
{
    if styles.len() > 0 {
        let prev = styles.drop_last();
        assert(all_codes(prev)) by {
            assert forall|k: int| 0 <= k < prev.len() implies is_code(#[trigger] prev[k]) by {
                assert(prev[k] == styles[k]);
            }
        }
        lemma_concat_codes(prev);
        assert(is_code(styles[styles.len() - 1]));
        lemma_code_scan_concat(concat_all(prev), styles.last());
    } else {
        assert(quiet(Seq::<char>::empty()));
        lemma_quiet_code_scan(Seq::<char>::empty());
    }
}

/// What drawing `chunk` after `out` leaves: the chunk's last escape sequence, if it has one.
proof fn lemma_append_chunk(out: Seq<char>, chunk: Seq<char>)
    requires
        code_scan(out).0 == ScanState::Plain,
        code_scan(chunk).0 == ScanState::Plain,
    ensures
        code_scan(out + chunk).0 == ScanState::Plain,
        last_code(out + chunk) == if last_code(chunk) is Some {
            last_code(chunk)
        } else {
            last_code(out)
        },
{
    lemma_code_scan_concat(out, chunk);
}

/// A quiet piece followed by a chunk, and a code followed by a chunk.
proof fn lemma_quiet_then(q: Seq<char>, chunk: Seq<char>)
    requires
        quiet(q),
        code_scan(chunk).0 == ScanState::Plain,
    ensures
        code_scan(q + chunk).0 == ScanState::Plain,
        last_code(q + chunk) == last_code(chunk),
{
    lemma_quiet_code_scan(q);
    lemma_code_scan_concat(q, chunk);
}

proof fn lemma_code_then(c: Seq<char>, chunk: Seq<char>)
    requires
        is_code(c),
        code_scan(chunk).0 == ScanState::Plain,
    ensures
        code_scan(c + chunk).0 == ScanState::Plain,
        last_code(c + chunk) == if last_code(chunk) is Some {
            last_code(chunk)
        } else {
            Some(c)
        },
{
    lemma_code_scan_concat(c, chunk);
}

proof fn lemma_quiet_chunk(q: Seq<char>)
    requires
        quiet(q),
    ensures
        code_scan(q).0 == ScanState::Plain,
        last_code(q) is None,
{
    lemma_quiet_code_scan(q);
}

/// Reading one plain event outside any table keeps what has been drawn tracked.
#[verifier::spinoff_prover]
#[verifier::rlimit(60)]
proof fn lemma_step_output(
    s: SpecState,
    out: Seq<char>,
    open: Seq<TagEnd>,
    e: SpecEvent,
    open2: Seq<TagEnd>,
)
    requires
        output_tracks(s, out, open),
        s.table is None,
        plain_event(e),
        match e {
            SpecEvent::Start(t) => open2 == open.push(end_of(t)),
            SpecEvent::End(x) => open.len() > 0 && open.last() == x && open2 == open.drop_last(),
            _ => open2 == open,
        },
    ensures
        output_tracks(step(s, e).0, out + step(s, e).1, open2),
{
    let (f2, chunk) = flow_step(s, e);
    let s2 = step(s, e).0;
    assert(step(s, e).1 == chunk);
    assert(s2.styles == f2.styles && s2.lists == f2.lists && s2.in_image == f2.in_image
        && s2.link_url == f2.link_url && s2.table == f2.table);
    if let SpecEvent::Start(SpecTag::Table(a)) = e {
        let t = s2.table->0;
        assert(t.rows =~= Seq::<Seq<Seq<char>>>::empty());
        assert(quiet(Seq::<char>::empty()));
        lemma_quiet_closed_off(Seq::<char>::empty());
        lemma_quiet_code_scan(Seq::<char>::empty());
        assert(chunk =~= Seq::<char>::empty());
        assert(out + chunk =~= out);
        assert(open2.take(open.len() as int) =~= open);
        assert(flow_tracked(s2, out + chunk, open2.take(open.len() as int)));
        assert(open2[open.len() as int] == TagEnd::Table);
        return;
    }
    let styling = |x: TagEnd| is_styling_kind(x);
    let styles = |x: TagEnd| is_style_kind(x);
    lemma_step_tracks(s, open, e, open2);
    lemma_count_mono(open2, styles, styling);
    let nl = seq!['\n'];
    let nl2 = seq!['\n', '\n'];
    assert(quiet(nl));
    assert(quiet(nl2));
    assert(quiet(Seq::<char>::empty()));
    lemma_sgr_is_code('0');
    lemma_sgr_is_code('1');
    lemma_sgr_is_code('2');
    lemma_sgr_is_code('3');
    lemma_sgr_is_code('4');
    lemma_sgr_is_code('7');
    match e {
        SpecEvent::Start(t) => {
            lemma_count_push(open, end_of(t), styling);
            match t {
                SpecTag::Heading(l) => {
                    lemma_heading_code_is_code(l);
                    assert(s2.styles == s.styles.push(heading_code(l)));
                },
                SpecTag::Item => {
                    let n = if s.lists.len() > 0 && s.lists.last() is Some {
                        s.lists.last()->0 as nat
                    } else {
                        0
                    };
                    let k = if s.lists.len() > 0 {
                        (s.lists.len() - 1) as nat
                    } else {
                        0
                    };
                    lemma_quiet_pieces(n, k);
                    assert(quiet(seq!['.', ' ']));
                    assert(quiet(seq!['\u{2022}', ' ']));
                    lemma_quiet_concat(copies(seq![' ', ' '], k), decimal(n));
                    lemma_quiet_concat(copies(seq![' ', ' '], k) + decimal(n), seq!['.', ' ']);
                    lemma_quiet_concat(copies(seq![' ', ' '], k), seq!['\u{2022}', ' ']);
                    lemma_quiet_chunk(chunk);
                },
                SpecTag::Emphasis => {
                    assert(s2.styles == s.styles.push(italic_code()));
                },
                SpecTag::Strong => {
                    assert(s2.styles == s.styles.push(bold_code()));
                },
                SpecTag::Link(url) => {
                    assert(s2.styles == s.styles.push(underline_code()));
                },
                SpecTag::CodeBlock | SpecTag::Image => {
                    assert(chunk == dim_code());
                },
                SpecTag::List(_) => {
                    if s.lists.len() > 0 && s.line_open {
                        assert(chunk == nl);
                    }
                    lemma_quiet_chunk(chunk);
                },
                _ => {
                    assert(chunk == Seq::<char>::empty());
                    lemma_quiet_chunk(chunk);
                },
            }
            assert(all_codes(s2.styles)) by {
                assert forall|k: int| 0 <= k < s2.styles.len() implies is_code(
                    #[trigger] s2.styles[k],
                ) by {
                    if k < s.styles.len() {
                        assert(s2.styles[k] == s.styles[k]);
                    }
                }
            }
            lemma_append_chunk(out, chunk);
        },
        SpecEvent::End(x) => {
            assert(open2.push(x) =~= open);
            lemma_count_push(open2, x, styling);
            let kept = popped(s.styles);
            assert(all_codes(kept)) by {
                assert forall|k: int| 0 <= k < kept.len() implies is_code(#[trigger] kept[k]) by {
                    assert(kept[k] == s.styles[k]);
                }
            }
            lemma_concat_codes(kept);
            match x {
                TagEnd::Heading | TagEnd::CodeBlock => {
                    lemma_quiet_chunk(nl2);
                    lemma_code_then(reset_code(), nl2);
                    assert(chunk =~= reset_code() + nl2);
                },
                TagEnd::Emphasis | TagEnd::Strong => {
                    lemma_code_then(reset_code(), concat_all(kept));
                },
                TagEnd::Link => {
                    let shown = match s.link_url {
                        Some(url) => seq![' ', '('] + url + seq![')'],
                        None => Seq::empty(),
                    };
                    if let Some(url) = s.link_url {
                        assert(quiet(seq![' ', '(']));
                        assert(quiet(seq![')']));
                        lemma_quiet_concat(seq![' ', '('], url);
                        lemma_quiet_concat(seq![' ', '('] + url, seq![')']);
                    }
                    lemma_quiet_then(shown, concat_all(kept));
                    lemma_code_then(reset_code(), shown + concat_all(kept));
                    assert(chunk =~= reset_code() + (shown + concat_all(kept)));
                },
                TagEnd::Image => {
                    assert(chunk == reset_code());
                },
                TagEnd::Paragraph => {
                    assert(chunk =~= nl2);
                    lemma_quiet_chunk(chunk);
                },
                TagEnd::Item => {
                    assert(chunk =~= nl);
                    lemma_quiet_chunk(chunk);
                },
                TagEnd::List => {
                    if popped(s.lists).len() == 0 {
                        assert(chunk =~= nl);
                    } else {
                        assert(chunk =~= Seq::<char>::empty());
                    }
                    lemma_quiet_chunk(chunk);
                },
                _ => {
                    assert(chunk =~= Seq::<char>::empty());
                    lemma_quiet_chunk(chunk);
                },
            }
            lemma_append_chunk(out, chunk);
        },
        SpecEvent::Code(x) => {
            lemma_concat_codes(s.styles);
            lemma_code_then(reset_code(), concat_all(s.styles));
            lemma_quiet_then(x, reset_code() + concat_all(s.styles));
            lemma_code_then(reverse_code(), x + (reset_code() + concat_all(s.styles)));
            assert(chunk =~= reverse_code() + (x + (reset_code() + concat_all(s.styles))));
            lemma_append_chunk(out, chunk);
        },
        SpecEvent::Text(x) => {
            if s.in_image {
                assert(quiet(seq!['[']));
                assert(quiet(seq![']']));
                lemma_quiet_concat(seq!['['], x);
                lemma_quiet_concat(seq!['['] + x, seq![']']);
            }
            lemma_quiet_chunk(chunk);
            lemma_append_chunk(out, chunk);
        },
        SpecEvent::SoftBreak | SpecEvent::HardBreak => {
            assert(chunk =~= nl);
            lemma_quiet_chunk(chunk);
            lemma_append_chunk(out, chunk);
        },
        _ => {
            assert(chunk =~= Seq::<char>::empty());
            lemma_quiet_chunk(chunk);
            lemma_append_chunk(out, chunk);
        },
    }
}

proof fn lemma_after_last_cell_push(open: Seq<TagEnd>, x: TagEnd)
    requires
        x != TagEnd::TableCell,
    ensures
        after_last_cell(open.push(x)) == after_last_cell(open).push(x),
{
    assert(open.push(x).drop_last() =~= open);
}

/// Reading one plain event inside a table keeps what has been drawn tracked.
proof fn lemma_table_step_output(
    s: SpecState,
    out: Seq<char>,
    open: Seq<TagEnd>,
    e: SpecEvent,
    open2: Seq<TagEnd>,
)
    requires
        output_tracks(s, out, open),
        s.table is Some,
        plain_event(e),
        match e {
            SpecEvent::Start(t) => open2 == open.push(end_of(t)),
            SpecEvent::End(x) => open.len() > 0 && open.last() == x && open2 == open.drop_last(),
            _ => open2 == open,
        },
    ensures
        output_tracks(step(s, e).0, out + step(s, e).1, open2),
{
    let t = s.table->0;
    let (s2, chunk) = step(s, e);
    let cell_styles = |x: TagEnd| is_cell_style_kind(x);
    let j = choose|j: int|
        0 <= j < open.len() && open[j] == TagEnd::Table && #[trigger] flow_tracked(
            s,
            out,
            open.take(j),
        );
    lemma_sgr_is_code('0');
    lemma_sgr_is_code('1');
    lemma_sgr_is_code('3');
    lemma_sgr_is_code('7');
    assert(s2.styles == s.styles && s2.link_url == s.link_url && s2.lists == s.lists
        && s2.in_image == s.in_image);
    if e == SpecEvent::End(TagEnd::Table) {
        lemma_table_text_closed_off(t.alignments, t.rows);
        lemma_code_scan_concat(out, chunk);
        assert(open2.take(j) =~= open.take(j));
        lemma_accounted_prefix(s2, open2, j);
        lemma_count_prefix(open2, j, |x: TagEnd| is_styling_kind(x));
        return;
    }
    assert(chunk =~= Seq::<char>::empty());
    assert(out + chunk =~= out);
    let t2 = s2.table->0;
    match e {
        SpecEvent::End(x) => {
            assert(x != TagEnd::Table);
            assert(open2.push(x) =~= open);
            assert(j < open2.len());
        },
        _ => {},
    }
    assert(open2.take(j) =~= open.take(j));
    assert(open2[j] == TagEnd::Table);
    assert(flow_tracked(s2, out + chunk, open2.take(j)));
    match e {
        SpecEvent::Start(tag) => {
            if tag is TableCell {
                assert(quiet(Seq::<char>::empty()));
                lemma_quiet_closed_off(Seq::<char>::empty());
                lemma_quiet_code_scan(Seq::<char>::empty());
            } else {
                lemma_after_last_cell_push(open, end_of(tag));
                lemma_count_push(after_last_cell(open), end_of(tag), cell_styles);
                if tag is Strong || tag is Emphasis {
                    let code = if tag is Strong {
                        bold_code()
                    } else {
                        italic_code()
                    };
                    lemma_code_scan_concat(t.current_cell, code);
                } else if tag is TableHead || tag is TableRow {
                    assert(t2.current_row =~= Seq::<Seq<char>>::empty());
                }
            }
        },
        SpecEvent::End(x) => {
            if x == TagEnd::TableCell {
                assert(after_last_cell(open) =~= Seq::<TagEnd>::empty());
                assert(closed_off(t.current_cell));
                assert(quiet(Seq::<char>::empty()));
                lemma_quiet_closed_off(Seq::<char>::empty());
                lemma_quiet_code_scan(Seq::<char>::empty());
                assert forall|i: int| 0 <= i < t2.current_row.len() implies closed_off(
                    #[trigger] t2.current_row[i],
                ) by {
                    if i < t.current_row.len() {
                        assert(t2.current_row[i] == t.current_row[i]);
                    }
                }
            } else {
                lemma_after_last_cell_push(open2, x);
                lemma_count_push(after_last_cell(open2), x, cell_styles);
                if x == TagEnd::Strong || x == TagEnd::Emphasis {
                    lemma_code_scan_concat(t.current_cell, reset_code());
                } else if x == TagEnd::TableHead || x == TagEnd::TableRow {
                    assert(t2.current_row =~= Seq::<Seq<char>>::empty());
                    assert forall|k: int, i: int|
                        0 <= k < t2.rows.len() && 0 <= i < t2.rows[k].len() implies closed_off(
                        #[trigger] t2.rows[k][i],
                    ) by {
                        if k < t.rows.len() {
                            assert(t2.rows[k] == t.rows[k]);
                        } else {
                            assert(t2.rows[k] == t.current_row);
                        }
                    }
                }
            }
        },
        SpecEvent::Text(x) => {
            lemma_quiet_code_scan(x);
            lemma_code_scan_concat(t.current_cell, x);
        },
        SpecEvent::Code(x) => {
            lemma_quiet_code_scan(x);
            lemma_code_scan_concat(reverse_code(), x);
            lemma_code_scan_concat(reverse_code() + x, reset_code());
            lemma_code_scan_concat(t.current_cell, reverse_code() + x + reset_code());
        },
        _ => {},
    }
}

proof fn lemma_run_output(events: Seq<SpecEvent>)
    requires
        open_elements(events) is Some,
        forall|k: int| 0 <= k < events.len() ==> plain_event(#[trigger] events[k]),
    ensures
        output_tracks(
            run(initial_state(), events).0,
            run(initial_state(), events).1,
            open_elements(events)->0,
        ),
    decreases events.len(),
{
    if events.len() == 0 {
        let open = Seq::<TagEnd>::empty();
        let out = Seq::<char>::empty();
        assert(quiet(out));
        lemma_quiet_code_scan(out);
        assert(accounted(initial_state(), open));
        assert(flow_tracked(initial_state(), out, open));
    } else {
        let prev = events.drop_last();
        assert(open_elements(prev) is Some);
        assert forall|k: int| 0 <= k < prev.len() implies plain_event(#[trigger] prev[k]) by {
            assert(prev[k] == events[k]);
        }
        lemma_run_output(prev);
        assert(plain_event(events[events.len() - 1]));
        if run(initial_state(), prev).0.table is None {
            lemma_step_output(
                run(initial_state(), prev).0,
                run(initial_state(), prev).1,
                open_elements(prev)->0,
                events.last(),
                open_elements(events)->0,
            );
        } else {
            lemma_table_step_output(
                run(initial_state(), prev).0,
                run(initial_state(), prev).1,
                open_elements(prev)->0,
                events.last(),
                open_elements(events)->0,
            );
        }
    }
}

/// Drawing a well-nested run of events leaves no style in force: the last escape sequence
/// of the text drawn, if there is one, is the reset code, and the text does not end inside
/// an escape sequence. This needs the texts, inline code and link destinations to hold no
/// escape character of their own.
pub proof fn lemma_styles_closed_at_end(events: Seq<SpecEvent>)
    requires
        well_nested(events),
        forall|k: int| 0 <= k < events.len() ==> plain_event(#[trigger] events[k]),
    ensures
        style_off(rendered(events)),
        code_scan(rendered(events)).0 == ScanState::Plain,
{
    lemma_run_output(events);
    let open = Seq::<TagEnd>::empty();
    assert(open_elements(events)->0 == open);
    assert(run(initial_state(), events).0.table is None);
}

} // verus!
