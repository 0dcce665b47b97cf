//! The structural event stream of a document.
//!
//! Parsing the document format is delegated to pulldown_cmark; each of its
//! events is reduced to a plain value carrying only what the extractor
//! reads: heading boundaries, text, link destinations, footnote labels,
//! and the starting byte offset of the events that can raise a diagnostic.

use vstd::prelude::*;
use vstd::string::StringSliceAdditionalSpecFns;
use pulldown_cmark::{Event, Options, Parser, Tag, TagEnd};

verus! {

/// One structural event of a parsed document, reduced to plain values.
pub enum MdEvent {
    /// A heading opens; its text arrives in following `Text` events.
    HeadingStart,
    /// The open heading closes.
    HeadingEnd,
    /// A run of text or inline code.
    Text { text: Vec<u8> },
    /// A link (standard, reference-style, autolink or wiki-style) with its
    /// raw destination, starting at `offset`.
    LinkStart { dest: Vec<u8>, offset: usize },
    /// A footnote reference with its label, starting at `offset`.
    FootnoteRef { label: Vec<u8>, offset: usize },
    /// A footnote definition: the document declares this label.
    FootnoteDef { label: Vec<u8> },
    /// Any other event; the extractor ignores it.
    Other,
}

/// The byte offset an event carries, if any, lies within a text of `n`
/// bytes.
pub open spec fn event_in_bounds(e: MdEvent, n: int) -> bool {
    match e {
        MdEvent::LinkStart { dest, offset } => offset <= n,
        MdEvent::FootnoteRef { label, offset } => offset <= n,
        _ => true,
    }
}

/// The event stream that parsing a document with this engine's options
/// yields: a function of the text alone.
pub uninterp spec fn md_events(text: Seq<char>) -> Seq<MdEvent>;

#[verifier::external_type_specification]
#[verifier::external_body]
pub struct ExOptions(Options);

#[verifier::external_type_specification]
#[verifier::external_body]
pub struct ExEvent<'a>(Event<'a>);

/// Relies on pulldown_cmark::Options: the union of the footnote and
/// wikilink flags, the dialect this engine checks.
#[verifier::external_body]
pub fn create_options() -> Options {
    Options::ENABLE_FOOTNOTES | Options::ENABLE_WIKILINKS
}

/// Relies on pulldown_cmark's Event shape: each variant is mapped to the
/// plain value the extractor reads, fields moved as they stand.
#[verifier::external_body]
fn convert_event(ev: Event<'_>, offset: usize) -> MdEvent {
    match ev {
        Event::Start(Tag::Heading { .. }) => MdEvent::HeadingStart,
        Event::End(TagEnd::Heading(_)) => MdEvent::HeadingEnd,
        Event::Text(t) | Event::Code(t) => MdEvent::Text { text: t.as_bytes().to_vec() },
        Event::Start(Tag::Link { dest_url, .. }) => MdEvent::LinkStart { dest: dest_url.as_bytes().to_vec(), offset },
        Event::FootnoteReference(l) => MdEvent::FootnoteRef { label: l.as_bytes().to_vec(), offset },
        Event::Start(Tag::FootnoteDefinition(l)) => MdEvent::FootnoteDef { label: l.as_bytes().to_vec() },
        _ => MdEvent::Other,
    }
}

/// Relies on pulldown_cmark::Parser::new_ext and OffsetIter: for fixed text
/// and fixed options the event stream is a function of the text alone, and
/// every range it attaches lies within the text.
#[verifier::external_body]
pub(crate) fn parse_events(text: &str) -> (r: Vec<MdEvent>)
    ensures
        r@ == md_events(text@),
        forall|i: int|
            0 <= i < r@.len() ==> event_in_bounds(r@[i], text.spec_bytes().len() as int),
{
    let mut out: Vec<MdEvent> = Vec::new();
    for (ev, range) in Parser::new_ext(text, create_options()).into_offset_iter() {
        out.push(convert_event(ev, range.start));
    }
    out
}

} // verus!
