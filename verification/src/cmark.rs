//! The markdown event stream: pulldown-cmark's events, as the renderer reads them.

use pulldown_cmark::{
    Alignment, BlockQuoteKind, CodeBlockKind, CowStr, Event, HeadingLevel, LinkType,
    MetadataBlockKind, Options, Parser, Tag, TagEnd,
};
use vstd::prelude::*;

verus! {

#[verifier::external_type_specification]
#[verifier::external_body]
pub struct ExCowStr<'a>(CowStr<'a>);

#[verifier::external_type_specification]
pub struct ExEvent<'a>(Event<'a>);

#[verifier::external_type_specification]
pub struct ExTag<'a>(Tag<'a>);

#[verifier::external_type_specification]
pub struct ExTagEnd(TagEnd);

#[verifier::external_type_specification]
pub struct ExHeadingLevel(HeadingLevel);

#[verifier::external_type_specification]
pub struct ExCodeBlockKind<'a>(CodeBlockKind<'a>);

#[verifier::external_type_specification]
pub struct ExBlockQuoteKind(BlockQuoteKind);

#[verifier::external_type_specification]
pub struct ExMetadataBlockKind(MetadataBlockKind);

#[verifier::external_type_specification]
pub struct ExLinkType(LinkType);

#[verifier::external_type_specification]
pub struct ExAlignment(Alignment);

/// The text a pulldown-cmark `CowStr` holds (its `into_string`). Nothing is
/// claimed of the result: the type is opaque here, so no contract can relate
/// the text to it.
#[verifier::external_body]
fn cow_string(s: CowStr) -> String {
    s.into_string()
}

/// A block or inline element opening, as far as the renderer tells them apart.
pub enum MdTag {
    Paragraph,
    /// A heading of the given level, 1 through 6.
    Heading(u8),
    CodeBlock,
    /// A list: `Some(first number)` when ordered, `None` for bullets.
    List(Option<u64>),
    Item,
    BlockQuote,
    /// An inline link to the given (unresolved) destination.
    Link(String),
    /// An image at the given (unresolved) destination.
    Image(String),
    Table,
    TableCell,
    /// Any other element (emphasis, footnote definitions, ...).
    Other,
}

/// A block or inline element closing.
#[derive(Clone, Copy, PartialEq, Eq)]
pub enum MdTagEnd {
    Paragraph,
    Heading,
    CodeBlock,
    List,
    Item,
    BlockQuote,
    Link,
    Image,
    TableCell,
    TableRow,
    TableHead,
    Table,
    Other,
}

/// An element opening as the renderer reads it: texts as character sequences.
pub enum TagV {
    Paragraph,
    Heading(u8),
    CodeBlock,
    List(Option<u64>),
    Item,
    BlockQuote,
    Link(Seq<char>),
    Image(Seq<char>),
    Table,
    TableCell,
    Other,
}

/// One markdown event as the renderer reads it.
pub enum EventV {
    Start(TagV),
    End(MdTagEnd),
    Text(Seq<char>),
    Code(Seq<char>),
    SoftBreak,
    HardBreak,
    Rule,
    Other,
}

impl View for MdTag {
    type V = TagV;

    open spec fn view(&self) -> TagV {
        match self {
            MdTag::Paragraph => TagV::Paragraph,
            MdTag::Heading(l) => TagV::Heading(*l),
            MdTag::CodeBlock => TagV::CodeBlock,
            MdTag::List(s) => TagV::List(*s),
            MdTag::Item => TagV::Item,
            MdTag::BlockQuote => TagV::BlockQuote,
            MdTag::Link(u) => TagV::Link(u@),
            MdTag::Image(u) => TagV::Image(u@),
            MdTag::Table => TagV::Table,
            MdTag::TableCell => TagV::TableCell,
            MdTag::Other => TagV::Other,
        }
    }
}

impl View for MdEvent {
    type V = EventV;

    open spec fn view(&self) -> EventV {
        match self {
            MdEvent::Start(t) => EventV::Start(t@),
            MdEvent::End(t) => EventV::End(*t),
            MdEvent::Text(s) => EventV::Text(s@),
            MdEvent::Code(s) => EventV::Code(s@),
            MdEvent::SoftBreak => EventV::SoftBreak,
            MdEvent::HardBreak => EventV::HardBreak,
            MdEvent::Rule => EventV::Rule,
            MdEvent::Other => EventV::Other,
        }
    }
}

/// The events of a whole markdown text.
pub open spec fn events_view(evs: Seq<MdEvent>) -> Seq<EventV> {
    evs.map_values(|e: MdEvent| e@)
}

/// What pulldown-cmark's parser yields for a markdown text (tables and
/// strikethrough enabled), each event read as an [`EventV`].
pub uninterp spec fn markdown_events(src: Seq<char>) -> Seq<EventV>;

/// The event stream of `markdown`: pulldown-cmark's `Parser::new_ext` with
/// tables and strikethrough enabled, each event read by [`from_event`]. The
/// contract claims only that the result is a function of the text.
#[verifier::external_body]
pub fn parse_markdown(markdown: &str) -> (r: Vec<MdEvent>)
    ensures
        events_view(r@) == markdown_events(markdown@),
{
    let mut opts = Options::empty();
    opts.insert(Options::ENABLE_TABLES);
    opts.insert(Options::ENABLE_STRIKETHROUGH);
    Parser::new_ext(markdown, opts).map(from_event).collect()
}

/// One markdown event.
pub enum MdEvent {
    Start(MdTag),
    End(MdTagEnd),
    Text(String),
    /// Inline code (its literal text).
    Code(String),
    SoftBreak,
    HardBreak,
    Rule,
    /// Raw HTML, math, footnote references, task markers.
    Other,
}

/// The number of a heading level.
pub open spec fn level_of(level: HeadingLevel) -> u8 {
    match level {
        HeadingLevel::H1 => 1u8,
        HeadingLevel::H2 => 2u8,
        HeadingLevel::H3 => 3u8,
        HeadingLevel::H4 => 4u8,
        HeadingLevel::H5 => 5u8,
        HeadingLevel::H6 => 6u8,
    }
}

/// The heading level's number.
pub fn level_number(level: HeadingLevel) -> (r: u8)
    ensures
        r == level_of(level),
        1 <= r <= 6,
{
    match level {
        HeadingLevel::H1 => 1,
        HeadingLevel::H2 => 2,
        HeadingLevel::H3 => 3,
        HeadingLevel::H4 => 4,
        HeadingLevel::H5 => 5,
        HeadingLevel::H6 => 6,
    }
}

/// Whether `r` reads the opening `tag`: the same kind of element, with the
/// heading level and list start carried over (link and image destinations
/// are the tag's texts).
pub open spec fn reads_tag(tag: Tag, r: MdTag) -> bool {
    match tag {
        Tag::Paragraph => r is Paragraph,
        Tag::Heading { level, .. } => r == MdTag::Heading(level_of(level)),
        Tag::CodeBlock(_) => r is CodeBlock,
        Tag::List(start) => r == MdTag::List(start),
        Tag::Item => r is Item,
        Tag::BlockQuote(_) => r is BlockQuote,
        Tag::Link { .. } => r is Link,
        Tag::Image { .. } => r is Image,
        Tag::Table(_) => r is Table,
        Tag::TableCell => r is TableCell,
        _ => r is Other,
    }
}

/// The closing the renderer reads for `tag`.
pub open spec fn end_of(tag: TagEnd) -> MdTagEnd {
    match tag {
        TagEnd::Paragraph => MdTagEnd::Paragraph,
        TagEnd::Heading(_) => MdTagEnd::Heading,
        TagEnd::CodeBlock => MdTagEnd::CodeBlock,
        TagEnd::List(_) => MdTagEnd::List,
        TagEnd::Item => MdTagEnd::Item,
        TagEnd::BlockQuote(_) => MdTagEnd::BlockQuote,
        TagEnd::Link => MdTagEnd::Link,
        TagEnd::Image => MdTagEnd::Image,
        TagEnd::TableCell => MdTagEnd::TableCell,
        TagEnd::TableRow => MdTagEnd::TableRow,
        TagEnd::TableHead => MdTagEnd::TableHead,
        TagEnd::Table => MdTagEnd::Table,
        _ => MdTagEnd::Other,
    }
}

/// Whether `r` reads the event `ev`: the same kind of event (texts as the
/// event's texts), raw HTML, math, footnote references and task markers as
/// `Other`.
pub open spec fn reads_event(ev: Event, r: MdEvent) -> bool {
    match ev {
        Event::Start(tag) => r matches MdEvent::Start(t) && reads_tag(tag, t),
        Event::End(tag) => r == MdEvent::End(end_of(tag)),
        Event::Text(_) => r is Text,
        Event::Code(_) => r is Code,
        Event::SoftBreak => r is SoftBreak,
        Event::HardBreak => r is HardBreak,
        Event::Rule => r is Rule,
        _ => r is Other,
    }
}

/// Reads one pulldown-cmark event as an [`MdEvent`].
pub fn from_event(ev: Event) -> (r: MdEvent)
    ensures
        reads_event(ev, r),
{
    match ev {
        Event::Start(tag) => MdEvent::Start(from_tag(tag)),
        Event::End(tag) => MdEvent::End(from_tag_end(tag)),
        Event::Text(t) => MdEvent::Text(cow_string(t)),
        Event::Code(t) => MdEvent::Code(cow_string(t)),
        Event::SoftBreak => MdEvent::SoftBreak,
        Event::HardBreak => MdEvent::HardBreak,
        Event::Rule => MdEvent::Rule,
        _ => MdEvent::Other,
    }
}

/// Reads an element opening.
pub fn from_tag(tag: Tag) -> (r: MdTag)
    ensures
        reads_tag(tag, r),
{
    match tag {
        Tag::Paragraph => MdTag::Paragraph,
        Tag::Heading { level, .. } => MdTag::Heading(level_number(level)),
        Tag::CodeBlock(_) => MdTag::CodeBlock,
        Tag::List(start) => MdTag::List(start),
        Tag::Item => MdTag::Item,
        Tag::BlockQuote(_) => MdTag::BlockQuote,
        Tag::Link { dest_url, .. } => MdTag::Link(cow_string(dest_url)),
        Tag::Image { dest_url, .. } => MdTag::Image(cow_string(dest_url)),
        Tag::Table(_) => MdTag::Table,
        Tag::TableCell => MdTag::TableCell,
        _ => MdTag::Other,
    }
}

/// Reads an element closing.
pub fn from_tag_end(tag: TagEnd) -> (r: MdTagEnd)
    ensures
        r == end_of(tag),
{
    match tag {
        TagEnd::Paragraph => MdTagEnd::Paragraph,
        TagEnd::Heading(_) => MdTagEnd::Heading,
        TagEnd::CodeBlock => MdTagEnd::CodeBlock,
        TagEnd::List(_) => MdTagEnd::List,
        TagEnd::Item => MdTagEnd::Item,
        TagEnd::BlockQuote(_) => MdTagEnd::BlockQuote,
        TagEnd::Link => MdTagEnd::Link,
        TagEnd::Image => MdTagEnd::Image,
        TagEnd::TableCell => MdTagEnd::TableCell,
        TagEnd::TableRow => MdTagEnd::TableRow,
        TagEnd::TableHead => MdTagEnd::TableHead,
        TagEnd::Table => MdTagEnd::Table,
        _ => MdTagEnd::Other,
    }
}

} // verus!
