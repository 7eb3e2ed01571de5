//! Reading Markdown into document events with pulldown-cmark.
use vstd::prelude::*;
use pulldown_cmark::{
    Alignment as CmarkAlignment, Event as CmarkEvent, HeadingLevel as CmarkLevel, Options, Parser,
    Tag as CmarkTag, TagEnd as CmarkTagEnd,
};
use crate::event::{events_view, well_nested, Event, SpecEvent, SpecTag, Tag, TagEnd};
use crate::style::HeadingLevel;
use crate::table::Alignment;

verus! {

/// The events that pulldown-cmark reads from `markdown` with tables enabled, each taken as
/// the plain values that the renderer reads of it.
pub uninterp spec fn markdown_events(markdown: Seq<char>) -> Seq<SpecEvent>;

/// The events that pulldown-cmark handed out, in order.
#[verifier::external_body]
pub struct CmarkEvents<'a> {
    events: Vec<CmarkEvent<'a>>,
}

/// The events held, each taken as the plain values that the renderer reads of it.
pub uninterp spec fn held_events(events: CmarkEvents) -> Seq<SpecEvent>;

/// A text, a piece of inline code, or a line break.
pub open spec fn is_leaf(e: SpecEvent) -> bool {
    e is Text || e is Code || e is SoftBreak || e is HardBreak
}

/// A table's head, rows and cells opening, or a table, its head, rows and cells closing.
pub open spec fn is_table_part(e: SpecEvent) -> bool {
    match e {
        SpecEvent::Start(t) => t is TableHead || t is TableRow || t is TableCell,
        SpecEvent::End(t) => t is Table || t is TableHead || t is TableRow || t is TableCell,
        _ => false,
    }
}

/// A paragraph, a code block, a list or an item opening.
pub open spec fn is_block_start(e: SpecEvent) -> bool {
    match e {
        SpecEvent::Start(t) => t is Paragraph || t is CodeBlock || t is List || t is Item,
        _ => false,
    }
}

/// A paragraph, a heading, a code block, a list or an item closing.
pub open spec fn is_block_end(e: SpecEvent) -> bool {
    match e {
        SpecEvent::End(t) => t is Paragraph || t is Heading || t is CodeBlock || t is List
            || t is Item,
        _ => false,
    }
}

/// Emphasis, strong text, a link or an image opening or closing.
pub open spec fn is_inline_part(e: SpecEvent) -> bool {
    match e {
        SpecEvent::Start(t) => t is Emphasis || t is Strong || t is Link || t is Image,
        SpecEvent::End(t) => t is Emphasis || t is Strong || t is Link || t is Image,
        _ => false,
    }
}

/// An ordered list opening starts below one thousand million.
pub open spec fn start_below_billion(e: SpecEvent) -> bool {
    match e {
        SpecEvent::Start(SpecTag::List(Some(n))) => n < 1_000_000_000,
        _ => true,
    }
}

/// Reads `markdown` with pulldown-cmark's `Parser::new_ext`, tables enabled, and keeps every
/// event it yields. The events are named `markdown_events(markdown)`. pulldown-cmark reads
/// the number of an ordered list's first item from at most nine digits, and documents that
/// its start and end events are balanced: every element closes, innermost first. The
/// elements the renderer reads open and close as themselves; the others open and close as
/// `Other`, so what remains is well nested too.
#[verifier::external_body]
fn read_markdown<'a>(markdown: &'a str) -> (events: CmarkEvents<'a>)
    ensures
        held_events(events) == markdown_events(markdown@),
        well_nested(held_events(events)),
        forall|k: int|
            0 <= k < held_events(events).len() ==> start_below_billion(
                #[trigger] held_events(events)[k],
            ),
{
    CmarkEvents { events: Parser::new_ext(markdown, Options::ENABLE_TABLES).collect() }
}

impl<'a> CmarkEvents<'a> {
    /// The number of events held. A `Vec` never takes more than `isize::MAX` bytes, and
    /// every event takes at least one.
    #[verifier::external_body]
    fn count(&self) -> (n: usize)
        ensures
            n == held_events(*self).len(),
            n <= isize::MAX,
    {
        self.events.len()
    }

    /// Event `i` when it is a text, inline code or a line break; the text is copied out of
    /// pulldown-cmark's string.
    #[verifier::external_body]
    fn leaf_at(&self, i: usize) -> (e: Option<Event>)
        requires
            i < held_events(*self).len(),
        ensures
            e matches Some(e) ==> e@ == held_events(*self)[i as int],
            e is None <==> !is_leaf(held_events(*self)[i as int]),
    {
        match &self.events[i] {
            CmarkEvent::Text(text) => Some(Event::Text(text.to_string())),
            CmarkEvent::Code(text) => Some(Event::Code(text.to_string())),
            CmarkEvent::SoftBreak => Some(Event::SoftBreak),
            CmarkEvent::HardBreak => Some(Event::HardBreak),
            _ => None,
        }
    }

    /// Event `i` when it opens a table's head, a row or a cell, or closes a table, its head,
    /// a row or a cell.
    #[verifier::external_body]
    fn table_part_at(&self, i: usize) -> (e: Option<Event>)
        requires
            i < held_events(*self).len(),
        ensures
            e matches Some(e) ==> e@ == held_events(*self)[i as int],
            e is None <==> !is_table_part(held_events(*self)[i as int]),
    {
        match &self.events[i] {
            CmarkEvent::Start(CmarkTag::TableHead) => Some(Event::Start(Tag::TableHead)),
            CmarkEvent::Start(CmarkTag::TableRow) => Some(Event::Start(Tag::TableRow)),
            CmarkEvent::Start(CmarkTag::TableCell) => Some(Event::Start(Tag::TableCell)),
            CmarkEvent::End(CmarkTagEnd::Table) => Some(Event::End(TagEnd::Table)),
            CmarkEvent::End(CmarkTagEnd::TableHead) => Some(Event::End(TagEnd::TableHead)),
            CmarkEvent::End(CmarkTagEnd::TableRow) => Some(Event::End(TagEnd::TableRow)),
            CmarkEvent::End(CmarkTagEnd::TableCell) => Some(Event::End(TagEnd::TableCell)),
            _ => None,
        }
    }

    /// The column alignments when event `i` opens a table.
    #[verifier::external_body]
    fn table_start_at(&self, i: usize) -> (alignments: Option<Vec<Alignment>>)
        requires
            i < held_events(*self).len(),
        ensures
            alignments matches Some(a) ==> held_events(*self)[i as int] == SpecEvent::Start(
                SpecTag::Table(a@),
            ),
            alignments is None <==> !(held_events(*self)[i as int] matches SpecEvent::Start(
                SpecTag::Table(_),
            )),
    {
        match &self.events[i] {
            CmarkEvent::Start(CmarkTag::Table(columns)) => Some(columns.iter().map(|a| match a {
                CmarkAlignment::None => Alignment::Unspecified,
                CmarkAlignment::Left => Alignment::Left,
                CmarkAlignment::Center => Alignment::Center,
                CmarkAlignment::Right => Alignment::Right,
            }).collect()),
            _ => None,
        }
    }

    /// The level when event `i` opens a heading.
    #[verifier::external_body]
    fn heading_start_at(&self, i: usize) -> (level: Option<HeadingLevel>)
        requires
            i < held_events(*self).len(),
        ensures
            level matches Some(l) ==> held_events(*self)[i as int] == SpecEvent::Start(
                SpecTag::Heading(l),
            ),
            level is None <==> !(held_events(*self)[i as int] matches SpecEvent::Start(
                SpecTag::Heading(_),
            )),
    {
        match &self.events[i] {
            CmarkEvent::Start(CmarkTag::Heading { level, .. }) => Some(match level {
                CmarkLevel::H1 => HeadingLevel::H1,
                CmarkLevel::H2 => HeadingLevel::H2,
                CmarkLevel::H3 => HeadingLevel::H3,
                CmarkLevel::H4 => HeadingLevel::H4,
                CmarkLevel::H5 => HeadingLevel::H5,
                CmarkLevel::H6 => HeadingLevel::H6,
            }),
            _ => None,
        }
    }

    /// Event `i` when it opens a paragraph, a code block, a list or an item.
    #[verifier::external_body]
    fn block_start_at(&self, i: usize) -> (e: Option<Event>)
        requires
            i < held_events(*self).len(),
        ensures
            e matches Some(e) ==> e@ == held_events(*self)[i as int],
            e is None <==> !is_block_start(held_events(*self)[i as int]),
    {
        match &self.events[i] {
            CmarkEvent::Start(CmarkTag::Paragraph) => Some(Event::Start(Tag::Paragraph)),
            CmarkEvent::Start(CmarkTag::CodeBlock(_)) => Some(Event::Start(Tag::CodeBlock)),
            CmarkEvent::Start(CmarkTag::List(start)) => Some(Event::Start(Tag::List(*start))),
            CmarkEvent::Start(CmarkTag::Item) => Some(Event::Start(Tag::Item)),
            _ => None,
        }
    }

    /// Event `i` when it closes a paragraph, a heading, a code block, a list or an item.
    #[verifier::external_body]
    fn block_end_at(&self, i: usize) -> (e: Option<Event>)
        requires
            i < held_events(*self).len(),
        ensures
            e matches Some(e) ==> e@ == held_events(*self)[i as int],
            e is None <==> !is_block_end(held_events(*self)[i as int]),
    {
        match &self.events[i] {
            CmarkEvent::End(CmarkTagEnd::Paragraph) => Some(Event::End(TagEnd::Paragraph)),
            CmarkEvent::End(CmarkTagEnd::Heading(_)) => Some(Event::End(TagEnd::Heading)),
            CmarkEvent::End(CmarkTagEnd::CodeBlock) => Some(Event::End(TagEnd::CodeBlock)),
            CmarkEvent::End(CmarkTagEnd::List(_)) => Some(Event::End(TagEnd::List)),
            CmarkEvent::End(CmarkTagEnd::Item) => Some(Event::End(TagEnd::Item)),
            _ => None,
        }
    }

    /// Event `i` when it opens or closes emphasis, strong text, a link (with its destination
    /// copied out) or an image.
    #[verifier::external_body]
    fn inline_part_at(&self, i: usize) -> (e: Option<Event>)
        requires
            i < held_events(*self).len(),
        ensures
            e matches Some(e) ==> e@ == held_events(*self)[i as int],
            e is None <==> !is_inline_part(held_events(*self)[i as int]),
    {
        match &self.events[i] {
            CmarkEvent::Start(CmarkTag::Emphasis) => Some(Event::Start(Tag::Emphasis)),
            CmarkEvent::Start(CmarkTag::Strong) => Some(Event::Start(Tag::Strong)),
            CmarkEvent::Start(CmarkTag::Link { dest_url, .. }) => Some(Event::Start(Tag::Link(dest_url.to_string()))),
            CmarkEvent::Start(CmarkTag::Image { .. }) => Some(Event::Start(Tag::Image)),
            CmarkEvent::End(CmarkTagEnd::Emphasis) => Some(Event::End(TagEnd::Emphasis)),
            CmarkEvent::End(CmarkTagEnd::Strong) => Some(Event::End(TagEnd::Strong)),
            CmarkEvent::End(CmarkTagEnd::Link) => Some(Event::End(TagEnd::Link)),
            CmarkEvent::End(CmarkTagEnd::Image) => Some(Event::End(TagEnd::Image)),
            _ => None,
        }
    }

    /// Event `i` as a document event.
    fn event_at(&self, i: usize) -> (e: Event)
        requires
            i < held_events(*self).len(),
        ensures
            e@ == held_events(*self)[i as int],
    {
        if let Some(e) = self.leaf_at(i) {
            return e;
        }
        if let Some(e) = self.table_part_at(i) {
            return e;
        }
        if let Some(alignments) = self.table_start_at(i) {
            return Event::Start(Tag::Table(alignments));
        }
        if let Some(level) = self.heading_start_at(i) {
            return Event::Start(Tag::Heading(level));
        }
        if let Some(e) = self.block_start_at(i) {
            return e;
        }
        if let Some(e) = self.block_end_at(i) {
            return e;
        }
        if let Some(e) = self.inline_part_at(i) {
            return e;
        }
        Event::Other
    }
}

/// Reads `markdown` into document events. The events are well nested, no more than
/// `isize::MAX` of them come out, and each ordered list starts below one thousand million.
pub fn parse(markdown: &str) -> (events: Vec<Event>)
    ensures
        events_view(events@) == markdown_events(markdown@),
        well_nested(events_view(events@)),
        events.len() <= isize::MAX,
        forall|k: int|
            0 <= k < events.len() ==> start_below_billion(#[trigger] events_view(events@)[k]),
{
    let cmark = read_markdown(markdown);
    let n = cmark.count();
    let ghost held = held_events(cmark);
    let mut events: Vec<Event> = Vec::new();
    let mut i: usize = 0;
    while i < n
        invariant
            n == held.len(),
            held == held_events(cmark),
            held == markdown_events(markdown@),
            i <= n,
            events_view(events@) == held.take(i as int),
        decreases n - i,
    {
        let e = cmark.event_at(i);
        let ghost prev = events@;
        let ghost model = e@;
        events.push(e);
        proof {
            assert(events@ == prev.push(e));
            assert(events_view(events@) =~= events_view(prev).push(model));
            assert(held.take(i + 1) =~= held.take(i as int).push(held[i as int]));
        }
        i = i + 1;
    }
    proof {
        assert(held.take(n as int) =~= held);
        assert(forall|k: int| 0 <= k < events.len() ==> events_view(events@)[k] == held[k]);
    }
    events
}

} // verus!
