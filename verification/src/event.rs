//! The parts of a Markdown document that the renderer reads, in reading order.
use vstd::prelude::*;
use crate::style::HeadingLevel;
use crate::table::Alignment;

verus! {

/// An element that opens.
pub enum Tag {
    Paragraph,
    Heading(HeadingLevel),
    CodeBlock,
    /// A list; ordered ones carry the number of their first item.
    List(Option<u64>),
    Item,
    /// A table with the alignment of each column.
    Table(Vec<Alignment>),
    TableHead,
    TableRow,
    TableCell,
    Emphasis,
    Strong,
    /// A link with its destination.
    Link(String),
    Image,
}

/// An element that closes.
#[derive(Clone, Copy, Debug, PartialEq, Eq)]
pub enum TagEnd {
    Paragraph,
    Heading,
    CodeBlock,
    List,
    Item,
    Table,
    TableHead,
    TableRow,
    TableCell,
    Emphasis,
    Strong,
    Link,
    Image,
}

/// One step of a document.
pub enum Event {
    Start(Tag),
    End(TagEnd),
    Text(String),
    /// Inline code.
    Code(String),
    SoftBreak,
    HardBreak,
    /// Anything the renderer reads nothing of (a rule, raw HTML, a block quote opening or
    /// closing, ...).
    Other,
}

/// An opening element as plain values.
pub enum SpecTag {
    Paragraph,
    Heading(HeadingLevel),
    CodeBlock,
    List(Option<u64>),
    Item,
    Table(Seq<Alignment>),
    TableHead,
    TableRow,
    TableCell,
    Emphasis,
    Strong,
    Link(Seq<char>),
    Image,
}

/// A document step as plain values.
pub enum SpecEvent {
    Start(SpecTag),
    End(TagEnd),
    Text(Seq<char>),
    Code(Seq<char>),
    SoftBreak,
    HardBreak,
    Other,
}

impl View for Tag {
    type V = SpecTag;

    open spec fn view(&self) -> SpecTag {
        match self {
            Tag::Paragraph => SpecTag::Paragraph,
            Tag::Heading(l) => SpecTag::Heading(*l),
            Tag::CodeBlock => SpecTag::CodeBlock,
            Tag::List(n) => SpecTag::List(*n),
            Tag::Item => SpecTag::Item,
            Tag::Table(a) => SpecTag::Table(a@),
            Tag::TableHead => SpecTag::TableHead,
            Tag::TableRow => SpecTag::TableRow,
            Tag::TableCell => SpecTag::TableCell,
            Tag::Emphasis => SpecTag::Emphasis,
            Tag::Strong => SpecTag::Strong,
            Tag::Link(url) => SpecTag::Link(url@),
            Tag::Image => SpecTag::Image,
        }
    }
}

impl View for Event {
    type V = SpecEvent;

    open spec fn view(&self) -> SpecEvent {
        match self {
            Event::Start(t) => SpecEvent::Start(t@),
            Event::End(t) => SpecEvent::End(*t),
            Event::Text(s) => SpecEvent::Text(s@),
            Event::Code(s) => SpecEvent::Code(s@),
            Event::SoftBreak => SpecEvent::SoftBreak,
            Event::HardBreak => SpecEvent::HardBreak,
            Event::Other => SpecEvent::Other,
        }
    }
}

/// The plain values of a run of events.
pub open spec fn events_view(events: Seq<Event>) -> Seq<SpecEvent> {
    events.map_values(|e: Event| e@)
}

/// The closing that matches an opening.
pub open spec fn end_of(t: SpecTag) -> TagEnd {
    match t {
        SpecTag::Paragraph => TagEnd::Paragraph,
        SpecTag::Heading(_) => TagEnd::Heading,
        SpecTag::CodeBlock => TagEnd::CodeBlock,
        SpecTag::List(_) => TagEnd::List,
        SpecTag::Item => TagEnd::Item,
        SpecTag::Table(_) => TagEnd::Table,
        SpecTag::TableHead => TagEnd::TableHead,
        SpecTag::TableRow => TagEnd::TableRow,
        SpecTag::TableCell => TagEnd::TableCell,
        SpecTag::Emphasis => TagEnd::Emphasis,
        SpecTag::Strong => TagEnd::Strong,
        SpecTag::Link(_) => TagEnd::Link,
        SpecTag::Image => TagEnd::Image,
    }
}

/// The elements left open after `events`, innermost last, each by its closing; `None` when
/// some closing does not match the innermost open element.
pub open spec fn open_elements(events: Seq<SpecEvent>) -> Option<Seq<TagEnd>>
    decreases events.len(),
{
    if events.len() == 0 {
        Some(Seq::empty())
    } else {
        match open_elements(events.drop_last()) {
            None => None,
            Some(open) => match events.last() {
                SpecEvent::Start(t) => Some(open.push(end_of(t))),
                SpecEvent::End(e) => if open.len() > 0 && open.last() == e {
                    Some(open.drop_last())
                } else {
                    None
                },
                _ => Some(open),
            },
        }
    }
}

/// Every element that opens in `events` closes in it, and elements close innermost first.
pub open spec fn well_nested(events: Seq<SpecEvent>) -> bool {
    open_elements(events) == Some(Seq::<TagEnd>::empty())
}

} // verus!
