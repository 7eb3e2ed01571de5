//! What rendering does across events: styles come back when a span closes, tables keep
//! their alignments, table cells keep their inline styles, and list items count on.
use vstd::prelude::*;
use crate::event::{SpecEvent, SpecTag, TagEnd};
use crate::render::{concat_all, run, step, SpecState};
use crate::style::{bold_code, italic_code, reset_code, reverse_code, underline_code};
use crate::table::{padded, table_text, Alignment};
use crate::text::{copies, decimal, spaces, visible_text};

verus! {

/// The event that opens strong text (`true`) or emphasis (`false`).
pub open spec fn span_start(strong: bool) -> SpecEvent {
    if strong {
        SpecEvent::Start(SpecTag::Strong)
    } else {
        SpecEvent::Start(SpecTag::Emphasis)
    }
}

/// The event that closes strong text (`true`) or emphasis (`false`).
pub open spec fn span_end(strong: bool) -> SpecEvent {
    if strong {
        SpecEvent::End(TagEnd::Strong)
    } else {
        SpecEvent::End(TagEnd::Emphasis)
    }
}

/// The style code of strong text (`true`) or emphasis (`false`).
pub open spec fn span_code(strong: bool) -> Seq<char> {
    if strong {
        bold_code()
    } else {
        italic_code()
    }
}

/// Outside a table and an image, emphasis or strong text that opens, holds a text and closes draws its
/// style, the text, and then the reset code followed by every style that was in force
/// before it opened, outermost first; and afterwards the renderer remembers exactly those
/// styles again. Text after the span inside an enclosing styled element keeps that style.
pub proof fn lemma_span_restores_styles(s: SpecState, x: Seq<char>, strong: bool)
    requires
        s.table is None,
        !s.in_image,
    ensures
        step(s, span_start(strong)).1 == span_code(strong),
        step(step(s, span_start(strong)).0, SpecEvent::Text(x)).1 == x,
        step(
            step(step(s, span_start(strong)).0, SpecEvent::Text(x)).0,
            span_end(strong),
        ).1 == reset_code() + concat_all(s.styles),
        step(
            step(step(s, span_start(strong)).0, SpecEvent::Text(x)).0,
            span_end(strong),
        ).0.styles == s.styles,
{
    let s1 = step(s, span_start(strong)).0;
    assert(s1.styles == s.styles.push(span_code(strong)));
    let s2 = step(s1, SpecEvent::Text(x)).0;
    assert(s2.styles == s1.styles);
    assert(s2.styles.drop_last() =~= s.styles);
}

/// Inside a table, emphasis or strong text that opens, holds a text and closes draws
/// nothing yet: the cell being filled gets the span's style, the text and the reset code.
pub proof fn lemma_cell_keeps_span_style(s: SpecState, x: Seq<char>, strong: bool)
    requires
        s.table is Some,
    ensures
        step(s, span_start(strong)).1.len() == 0,
        step(step(s, span_start(strong)).0, SpecEvent::Text(x)).1.len() == 0,
        step(
            step(step(s, span_start(strong)).0, SpecEvent::Text(x)).0,
            span_end(strong),
        ).1.len() == 0,
        step(
            step(step(s, span_start(strong)).0, SpecEvent::Text(x)).0,
            span_end(strong),
        ).0.table matches Some(t) && t.current_cell == s.table->0.current_cell + span_code(
            strong,
        ) + x + reset_code() && t.rows == s.table->0.rows && t.alignments
            == s.table->0.alignments,
{
}

/// The table being read once a run of events has been read.
pub open spec fn table_after(s: SpecState, r: Seq<SpecEvent>) -> Option<crate::table::SpecTable> {
    run(s, r).0.table
}

/// A table keeps the alignments its opening event carries for as long as it is read, and
/// its closing draws it with exactly those alignments.
pub proof fn lemma_table_keeps_alignments(s: SpecState, a: Seq<Alignment>, r: Seq<SpecEvent>)
    requires
        s.table is None,
        forall|k: int| 0 <= k < r.len() ==> r[k] != SpecEvent::End(TagEnd::Table),
    ensures
        table_after(step(s, SpecEvent::Start(SpecTag::Table(a))).0, r) matches Some(t)
            && t.alignments == a,
        step(run(step(s, SpecEvent::Start(SpecTag::Table(a))).0, r).0, SpecEvent::End(TagEnd::Table)).1
            == table_text(a, table_after(step(s, SpecEvent::Start(SpecTag::Table(a))).0, r)->0.rows),
    decreases r.len(),
{
    let s1 = step(s, SpecEvent::Start(SpecTag::Table(a))).0;
    if r.len() > 0 {
        let prev = r.drop_last();
        assert forall|k: int| 0 <= k < prev.len() implies prev[k] != SpecEvent::End(
            TagEnd::Table,
        ) by {
            assert(prev[k] == r[k]);
        }
        lemma_table_keeps_alignments(s, a, prev);
        assert(r.last() == r[r.len() - 1]);
    }
}

/// Two items in a row of the same ordered list, at any depth, show consecutive numbers
/// after the same indentation: two blanks for each list enclosing theirs.
pub proof fn lemma_items_count_on(s: SpecState, n: u64)
    requires
        s.table is None,
        s.lists.len() > 0,
        s.lists.last() == Some(n),
        n < u64::MAX,
    ensures
        step(s, SpecEvent::Start(SpecTag::Item)).1 == copies(
            seq![' ', ' '],
            (s.lists.len() - 1) as nat,
        ) + decimal(n as nat) + seq!['.', ' '],
        step(
            step(step(s, SpecEvent::Start(SpecTag::Item)).0, SpecEvent::End(TagEnd::Item)).0,
            SpecEvent::Start(SpecTag::Item),
        ).1 == copies(seq![' ', ' '], (s.lists.len() - 1) as nat) + decimal((n + 1) as nat) + seq![
            '.',
            ' ',
        ],
{
    let s1 = step(s, SpecEvent::Start(SpecTag::Item)).0;
    assert(s1.lists.len() == s.lists.len());
    assert(s1.lists.last() == Some((n + 1) as u64));
    let s2 = step(s1, SpecEvent::End(TagEnd::Item)).0;
    assert(s2.lists == s1.lists);
}

/// Where padding goes: a cell narrower than its column gets exactly the missing blanks,
/// all before the text for `Right`, all after it otherwise, but for `Center`, which puts
/// half before and half after, the odd one after.
pub proof fn lemma_padding_placement(styled: Seq<char>, width: nat, alignment: Alignment)
    requires
        visible_text(styled).len() < width,
    ensures
        exists|before: nat, after: nat|
            {
                &&& padded(styled, width, alignment) == spaces(before) + styled + spaces(after)
                &&& before + after + visible_text(styled).len() == width
                &&& match alignment {
                    Alignment::Right => after == 0,
                    Alignment::Center => before <= after <= before + 1,
                    _ => before == 0,
                }
            },
{
    let p = (width - visible_text(styled).len()) as nat;
    assert(spaces(0) =~= Seq::<char>::empty());
    match alignment {
        Alignment::Right => {
            assert(spaces(p) + styled + spaces(0) =~= spaces(p) + styled);
            assert(padded(styled, width, alignment) == spaces(p) + styled + spaces(0));
        },
        Alignment::Center => {
            let b = p / 2;
            let a = (p - p / 2) as nat;
            assert(padded(styled, width, alignment) == spaces(b) + styled + spaces(a));
        },
        _ => {
            assert(spaces(0) + styled + spaces(p) =~= styled + spaces(p));
            assert(padded(styled, width, alignment) == spaces(0) + styled + spaces(p));
        },
    }
}

/// Outside a table and an image, a link that opens, holds a text and closes draws the
/// underline code, the text, then the reset code, the destination in brackets and every
/// style that was in force before the link opened, outermost first; afterwards the
/// renderer remembers exactly those styles and no destination.
pub proof fn lemma_link_restores_styles(s: SpecState, url: Seq<char>, x: Seq<char>)
    requires
        s.table is None,
        !s.in_image,
    ensures
        step(s, SpecEvent::Start(SpecTag::Link(url))).1 == underline_code(),
        step(step(s, SpecEvent::Start(SpecTag::Link(url))).0, SpecEvent::Text(x)).1 == x,
        step(
            step(step(s, SpecEvent::Start(SpecTag::Link(url))).0, SpecEvent::Text(x)).0,
            SpecEvent::End(TagEnd::Link),
        ).1 == reset_code() + seq![' ', '('] + url + seq![')'] + concat_all(s.styles),
        step(
            step(step(s, SpecEvent::Start(SpecTag::Link(url))).0, SpecEvent::Text(x)).0,
            SpecEvent::End(TagEnd::Link),
        ).0.styles == s.styles,
        step(
            step(step(s, SpecEvent::Start(SpecTag::Link(url))).0, SpecEvent::Text(x)).0,
            SpecEvent::End(TagEnd::Link),
        ).0.link_url is None,
{
    let s1 = step(s, SpecEvent::Start(SpecTag::Link(url))).0;
    assert(s1.styles == s.styles.push(underline_code()));
    let s2 = step(s1, SpecEvent::Text(x)).0;
    assert(s2.styles.drop_last() =~= s.styles);
    assert(reset_code() + (seq![' ', '('] + url + seq![')']) + concat_all(s.styles) =~= reset_code()
        + seq![' ', '('] + url + seq![')'] + concat_all(s.styles));
}

/// Outside a table, inline code draws in reversed colours and then puts back every style in
/// force, outermost first, leaving the styles remembered as they were.
pub proof fn lemma_code_restores_styles(s: SpecState, x: Seq<char>)
    requires
        s.table is None,
    ensures
        step(s, SpecEvent::Code(x)).1 == reverse_code() + x + reset_code() + concat_all(s.styles),
        step(s, SpecEvent::Code(x)).0.styles == s.styles,
{
}

/// Items of a bullet list, at any depth, start with the same indentation, two blanks for
/// each list enclosing theirs, and a bullet.
pub proof fn lemma_bullets_at_depth(s: SpecState)
    requires
        s.table is None,
        s.lists.len() > 0,
        s.lists.last() is None,
    ensures
        step(s, SpecEvent::Start(SpecTag::Item)).1 == copies(
            seq![' ', ' '],
            (s.lists.len() - 1) as nat,
        ) + seq!['\u{2022}', ' '],
        step(s, SpecEvent::Start(SpecTag::Item)).0.lists == s.lists,
{
}

/// A list that opens inside another list, outside a table, ends the open line first, so its
/// items start lines of their own; on a line already ended it draws nothing.
pub proof fn lemma_nested_list_starts_line(s: SpecState, start: Option<u64>)
    requires
        s.table is None,
        s.lists.len() > 0,
    ensures
        step(s, SpecEvent::Start(SpecTag::List(start))).1 == if s.line_open {
            seq!['\n']
        } else {
            Seq::<char>::empty()
        },
        step(s, SpecEvent::Start(SpecTag::List(start))).0.lists == s.lists.push(start),
        !step(s, SpecEvent::Start(SpecTag::List(start))).0.line_open,
{
}

} // verus!
