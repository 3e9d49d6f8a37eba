//! The boundary to pulldown_cmark: parsing markdown into a stream of events,
//! reading the little the pipeline needs off each event, synthesizing the few
//! events the pipeline replaces, and rendering a stream to HTML.
//!
//! Events are opaque; `ev_code` names the data one carries, and every parse,
//! probe, constructor and render result is specified against that name.

use vstd::prelude::*;

use pulldown_cmark::Event;
use pulldown_cmark::HeadingLevel;
use pulldown_cmark::LinkType;
use pulldown_cmark::Tag;

verus! {

#[verifier::external_type_specification]
#[verifier::external_body]
pub struct ExEvent<'a>(Event<'a>);

/// An abstract code for the data one event carries; probes of equal codes
/// agree, and rendering equal code sequences gives equal HTML.
pub uninterp spec fn ev_code(e: Event) -> nat;

/// What the pipeline reads off one parser event.
#[derive(Debug)]
pub enum MdInfo {
    HeadingStart(u32),
    HeadingEnd,
    Text(String),
    LinkStart { inline: bool, dest: String, title: String },
    LinkEnd { dest: String },
    Other,
}

/// What `event_info` reads off an event with the given code.
pub uninterp spec fn spec_info_of(code: nat) -> MdInfo;

/// The event codes that plain CommonMark parsing of a text yields.
pub uninterp spec fn spec_parse_plain(s: Seq<char>) -> Seq<nat>;

/// The event codes that parsing with tables, strikethrough, task lists and
/// footnotes enabled yields.
pub uninterp spec fn spec_parse_ext(s: Seq<char>) -> Seq<nat>;

/// The HTML rendered from a sequence of events with the given codes.
pub uninterp spec fn spec_html_of(codes: Seq<nat>) -> Seq<char>;

/// The code of a synthesized text event.
pub uninterp spec fn spec_code_text(s: Seq<char>) -> nat;

/// The code of a synthesized raw-HTML event.
pub uninterp spec fn spec_code_html(s: Seq<char>) -> nat;

/// The code of a synthesized heading-start event of the given level.
pub uninterp spec fn spec_code_heading_start(level: u32) -> nat;

/// The code of a synthesized inline link-start event.
pub uninterp spec fn spec_code_link_start(dest: Seq<char>, title: Seq<char>) -> nat;

/// Relies on pulldown_cmark::Parser::new: CommonMark parsing, a pure function
/// of the text.
#[verifier::external_body]
pub fn parse_markdown_plain(content: &str) -> (r: Vec<Event<'_>>)
    ensures
        r@.map_values(|e: Event| ev_code(e)) == spec_parse_plain(content@),
{
    pulldown_cmark::Parser::new(content).collect()
}

/// Relies on pulldown_cmark::Parser::new_ext with tables, strikethrough,
/// task lists and footnotes enabled: a pure function of the text.
#[verifier::external_body]
pub fn parse_markdown_ext(content: &str) -> (r: Vec<Event<'_>>)
    ensures
        r@.map_values(|e: Event| ev_code(e)) == spec_parse_ext(content@),
{
    let mut options = pulldown_cmark::Options::empty();
    options.insert(pulldown_cmark::Options::ENABLE_TABLES);
    options.insert(pulldown_cmark::Options::ENABLE_STRIKETHROUGH);
    options.insert(pulldown_cmark::Options::ENABLE_TASKLISTS);
    options.insert(pulldown_cmark::Options::ENABLE_FOOTNOTES);
    pulldown_cmark::Parser::new_ext(content, options).collect()
}

/// Relies on matching pulldown_cmark::Event and Tag variants: classifies one
/// event and copies out the heading level, text, or link fields it carries.
#[verifier::external_body]
pub fn event_info(e: &Event<'_>) -> (r: MdInfo)
    ensures
        r == spec_info_of(ev_code(*e)),
{
    match e {
        Event::Start(Tag::Heading(l, _, _)) => MdInfo::HeadingStart(*l as u32),
        Event::End(Tag::Heading(..)) => MdInfo::HeadingEnd,
        Event::Text(t) => MdInfo::Text(t.to_string()),
        Event::Start(Tag::Link(lt, d, t)) => MdInfo::LinkStart {
            inline: *lt == LinkType::Inline,
            dest: d.to_string(),
            title: t.to_string(),
        },
        Event::End(Tag::Link(_, d, _)) => MdInfo::LinkEnd { dest: d.to_string() },
        _ => MdInfo::Other,
    }
}

/// Relies on pulldown_cmark::Event's derived Clone: the copy carries the same
/// data as the original.
#[verifier::external_body]
pub fn event_dup<'a>(e: &Event<'a>) -> (r: Event<'a>)
    ensures
        ev_code(r) == ev_code(*e),
{
    e.clone()
}

/// Relies on constructing pulldown_cmark::Event::Text from an owned string.
#[verifier::external_body]
pub fn make_text_event(s: String) -> (r: Event<'static>)
    ensures
        ev_code(r) == spec_code_text(s@),
{
    Event::Text(s.into())
}

/// Relies on constructing pulldown_cmark::Event::Html from an owned string.
#[verifier::external_body]
pub fn make_html_event(s: String) -> (r: Event<'static>)
    ensures
        ev_code(r) == spec_code_html(s@),
{
    Event::Html(s.into())
}

/// Relies on constructing a pulldown_cmark heading-start event; headings the
/// parser emits here carry no fragment or classes, so none are attached.
#[verifier::external_body]
pub fn make_heading_start(level: u32) -> (r: Event<'static>)
    requires
        1 <= level <= 6,
    ensures
        ev_code(r) == spec_code_heading_start(level),
{
    let l = match level {
        1 => HeadingLevel::H1,
        2 => HeadingLevel::H2,
        3 => HeadingLevel::H3,
        4 => HeadingLevel::H4,
        5 => HeadingLevel::H5,
        _ => HeadingLevel::H6,
    };
    Event::Start(Tag::Heading(l, None, Vec::new()))
}

/// Relies on constructing an inline pulldown_cmark link-start event with the
/// given destination and title attribute.
#[verifier::external_body]
pub fn make_link_start(dest: String, title: String) -> (r: Event<'static>)
    ensures
        ev_code(r) == spec_code_link_start(dest@, title@),
{
    Event::Start(Tag::Link(LinkType::Inline, dest.into(), title.into()))
}

/// Relies on pulldown_cmark::html::push_html: the HTML is a pure function of
/// the event sequence.
#[verifier::external_body]
pub fn render_events_html(events: Vec<Event<'_>>) -> (r: String)
    ensures
        r@ == spec_html_of(events@.map_values(|e: Event| ev_code(e))),
{
    let mut out = String::new();
    pulldown_cmark::html::push_html(&mut out, events.into_iter());
    out
}

} // verus!
