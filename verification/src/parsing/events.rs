//! The events that a CommonMark reader gives for a text, as plain values.
use pulldown_cmark::CodeBlockKind::Fenced;
use pulldown_cmark::Event::{Code, End, HardBreak, Rule, SoftBreak, Start, Text};
use pulldown_cmark::TagEnd::{BlockQuote, CodeBlock, Heading, Item, List, Paragraph};
use pulldown_cmark::{Parser, Tag};
use vstd::prelude::*;

verus! {

/// The kind of a block that an event opens or closes.
#[derive(Debug)]
pub enum MdTag {
    Paragraph,
    /// With its level, 1 to 6.
    Heading(u8),
    /// Whether it is ordered.
    List(bool),
    Item,
    CodeBlock,
    BlockQuote,
    Other,
}

/// One event of a CommonMark reader.
#[derive(Debug)]
pub enum MdEvent {
    /// A block opens.
    Start(MdTag),
    /// A fenced code block opens, with its info string.
    Fence(String),
    End(MdTag),
    Text(String),
    /// Inline code, without its backquotes.
    Code(String),
    SoftBreak,
    HardBreak,
    Rule,
    Other,
}

/// The events that `pulldown_cmark::Parser::new` gives for a text.
pub uninterp spec fn markdown_events(s: Seq<char>) -> Seq<MdEvent>;

/// `pulldown_cmark::Parser::new(content)`, read to the end, each event as an
/// `MdEvent`: a start tag by its end tag, the start of a fenced code block
/// with its info string, text and inline code as strings.
#[verifier::external_body]
pub(crate) fn cmark_events(content: &str) -> (r: Vec<MdEvent>)
    ensures
        r@ == markdown_events(content@),
{
    let tag = |d| match d {
        Paragraph => MdTag::Paragraph, Heading(l) => MdTag::Heading(l as u8), List(o) => MdTag::List(o),
        Item => MdTag::Item, CodeBlock => MdTag::CodeBlock, BlockQuote => MdTag::BlockQuote, _ => MdTag::Other
    };
    Parser::new(content).map(|e| match e {
        Start(Tag::CodeBlock(Fenced(l))) => MdEvent::Fence(l.to_string()), Start(t) => MdEvent::Start(tag(t.to_end())),
        End(d) => MdEvent::End(tag(d)), Text(s) => MdEvent::Text(s.to_string()), Code(s) => MdEvent::Code(s.to_string()),
        SoftBreak => MdEvent::SoftBreak, HardBreak => MdEvent::HardBreak, Rule => MdEvent::Rule, _ => MdEvent::Other
    }).collect()
}

} // verus!
