//! What the markdown parser finds in a document.

use std::ops::Range;
use pulldown_cmark::LinkType::{Autolink, Email, Inline, WikiLink};
use pulldown_cmark::Event::{Code, End, Start, Text};
use pulldown_cmark::Tag::{CodeBlock, Heading, Image, Link};
use pulldown_cmark::TagEnd::Heading as HeadingEnd;
use pulldown_cmark::{Options, Parser};
use vstd::prelude::*;
use crate::md::events::MdEvent::{Block, Closes, Opens, Points, Rest, Shows, Verbatim, Words};

verus! {

/// The extensions documents are read with: tables, footnotes, strikethrough, task lists, heading
/// attributes and wikilinks, as the parser numbers them.
pub const MARKDOWN_OPTIONS: u32 = 0x805e;

/// How a link is written: as the parser tells its kinds apart.
pub const FORM_INLINE: u8 = 0;

pub const FORM_WIKI: u8 = 1;

pub const FORM_AUTO: u8 = 2;

pub const FORM_EMAIL: u8 = 3;

/// What matters of an event for headings.
pub enum HeadMark {
    Start(u32),
    Text(String),
    End,
    Other,
}

/// What matters of an event for links. Links and images have a form and a destination.
pub enum LinkMark {
    Code,
    Link(u8, String),
    Image(u8, String),
    Other,
}

/// Events as mathematical values.
#[verifier::ext_equal]
pub enum Head {
    Start(u32),
    Text(Seq<char>),
    End,
    Other,
}

#[verifier::ext_equal]
pub enum Mark {
    Code,
    Link(u8, Seq<char>),
    Image(u8, Seq<char>),
    Other,
}

impl View for HeadMark {
    type V = Head;

    open spec fn view(&self) -> Head {
        match self {
            HeadMark::Start(n) => Head::Start(*n),
            HeadMark::Text(s) => Head::Text(s@),
            HeadMark::End => Head::End,
            HeadMark::Other => Head::Other,
        }
    }
}

impl View for LinkMark {
    type V = Mark;

    open spec fn view(&self) -> Mark {
        match self {
            LinkMark::Code => Mark::Code,
            LinkMark::Link(f, s) => Mark::Link(*f, s@),
            LinkMark::Image(f, s) => Mark::Image(*f, s@),
            LinkMark::Other => Mark::Other,
        }
    }
}

pub open spec fn heads(v: Seq<(usize, HeadMark)>) -> Seq<(usize, Head)> {
    Seq::new(v.len(), |i: int| (v[i].0, v[i].1@))
}

pub open spec fn marks(v: Seq<(usize, usize, LinkMark)>) -> Seq<(usize, usize, Mark)> {
    Seq::new(v.len(), |i: int| (v[i].0, v[i].1, v[i].2@))
}

/// An event of the parser, as far as it matters here: a heading opens or closes, there are words or
/// words verbatim, a block of code begins, a link points or an image shows. The last two have a form
/// and a destination.
pub enum MdEvent {
    Opens(u32),
    Closes,
    Words(String),
    Verbatim(String),
    Block,
    Points(u8, String),
    Shows(u8, String),
    Rest,
}

/// An event as a mathematical value.
#[verifier::ext_equal]
pub enum Happening {
    Opens(u32),
    Closes,
    Words(Seq<char>),
    Verbatim(Seq<char>),
    Block,
    Points(u8, Seq<char>),
    Shows(u8, Seq<char>),
    Rest,
}

impl View for MdEvent {
    type V = Happening;

    open spec fn view(&self) -> Happening {
        match self {
            MdEvent::Opens(n) => Happening::Opens(*n),
            MdEvent::Closes => Happening::Closes,
            MdEvent::Words(s) => Happening::Words(s@),
            MdEvent::Verbatim(s) => Happening::Verbatim(s@),
            MdEvent::Block => Happening::Block,
            MdEvent::Points(f, s) => Happening::Points(*f, s@),
            MdEvent::Shows(f, s) => Happening::Shows(*f, s@),
            MdEvent::Rest => Happening::Rest,
        }
    }
}

pub open spec fn happenings(v: Seq<(Range<usize>, MdEvent)>) -> Seq<(usize, usize, Happening)> {
    Seq::new(v.len(), |i: int| (v[i].0.start, v[i].0.end, v[i].1@))
}

/// The events of `pulldown_cmark::Parser` and the bytes each spans.
pub uninterp spec fn parsed_events(flags: u32, body: Seq<char>) -> Seq<(usize, usize, Happening)>;

/// Runs `pulldown_cmark::Parser::new_ext` over a text and keeps of each event of its offset
/// iterator what matters here. The events depend on the options and the text alone; which they are
/// is only named. A heading's level is from 1 to 6.
#[verifier::external_body]
fn markdown_events(flags: u32, body: &str) -> (out: Vec<(Range<usize>, MdEvent)>)
    ensures
        happenings(out@) == parsed_events(flags, body@),
        forall|i: int| 0 <= i < out@.len() ==> ((#[trigger] out@[i]).1 matches MdEvent::Opens(n) ==> 1 <= n <= 6),
{
    let form = |t| match t { Inline => 0, WikiLink { .. } => 1, Autolink => 2, Email => 3, _ => 4 };
    let events = Parser::new_ext(body, Options::from_bits_truncate(flags)).into_offset_iter();
    events.map(|(e, r)| (r, match e {
        Start(Heading { level, .. }) => Opens(level as u32),
        End(HeadingEnd(_)) => Closes,
        Text(t) => Words(t.into_string()),
        Code(t) => Verbatim(t.into_string()),
        Start(CodeBlock(_)) => Block,
        Start(Link { link_type, dest_url, .. }) => Points(form(link_type), dest_url.into_string()),
        Start(Image { link_type, dest_url, .. }) => Shows(form(link_type), dest_url.into_string()),
        _ => Rest,
    })).collect()
}

/// What an event tells of headings: text and code in a heading are its words.
pub open spec fn head_of(h: Happening) -> Head {
    match h {
        Happening::Opens(n) => Head::Start(n),
        Happening::Closes => Head::End,
        Happening::Words(s) => Head::Text(s),
        Happening::Verbatim(s) => Head::Text(s),
        _ => Head::Other,
    }
}

/// What an event tells of links: there are none in code.
pub open spec fn mark_of(h: Happening) -> Mark {
    match h {
        Happening::Verbatim(_) => Mark::Code,
        Happening::Block => Mark::Code,
        Happening::Points(f, s) => Mark::Link(f, s),
        Happening::Shows(f, s) => Mark::Image(f, s),
        _ => Mark::Other,
    }
}

/// What the events of a text tell of headings, and where each begins.
pub open spec fn parsed_heads(flags: u32, body: Seq<char>) -> Seq<(usize, Head)> {
    let es = parsed_events(flags, body);
    Seq::new(es.len(), |i: int| (es[i].0, head_of(es[i].2)))
}

/// What the events of a text tell of links, and the bytes each spans.
pub open spec fn parsed_marks(flags: u32, body: Seq<char>) -> Seq<(usize, usize, Mark)> {
    let es = parsed_events(flags, body);
    Seq::new(es.len(), |i: int| (es[i].0, es[i].1, mark_of(es[i].2)))
}

/// What the events of a text tell of headings.
pub(crate) fn heading_events(flags: u32, body: &str) -> (out: Vec<(usize, HeadMark)>)
    ensures
        heads(out@) == parsed_heads(flags, body@),
        forall|i: int| 0 <= i < out@.len() ==> ((#[trigger] out@[i]).1 matches HeadMark::Start(n) ==> 1 <= n <= 6),
{
    let events = markdown_events(flags, body);
    let ghost es = happenings(events@);
    let mut out: Vec<(usize, HeadMark)> = Vec::new();
    let mut i: usize = 0;
    while i < events.len()
        invariant
            i <= events@.len(),
            es == happenings(events@),
            out@.len() == i,
            forall|k: int| 0 <= k < i ==> (#[trigger] out@[k]).0 == es[k].0 && out@[k].1@ == head_of(es[k].2),
            forall|k: int|
                0 <= k < events@.len() ==> ((#[trigger] events@[k]).1 matches MdEvent::Opens(n) ==> 1 <= n <= 6),
            forall|k: int| 0 <= k < i ==> ((#[trigger] out@[k]).1 matches HeadMark::Start(n) ==> 1 <= n <= 6),
        decreases events@.len() - i,
    {
        let e = &events[i];
        proof {
            assert(es[i as int] == (e.0.start, e.0.end, e.1@));
        }
        let mark = match &e.1 {
            MdEvent::Opens(n) => HeadMark::Start(*n),
            MdEvent::Closes => HeadMark::End,
            MdEvent::Words(s) => HeadMark::Text(s.clone()),
            MdEvent::Verbatim(s) => HeadMark::Text(s.clone()),
            _ => HeadMark::Other,
        };
        out.push((e.0.start, mark));
        i += 1;
    }
    proof {
        assert(heads(out@) =~= parsed_heads(flags, body@));
    }
    out
}

/// What the events of a text tell of links.
pub(crate) fn link_events(flags: u32, body: &str) -> (out: Vec<(usize, usize, LinkMark)>)
    ensures
        marks(out@) == parsed_marks(flags, body@),
{
    let events = markdown_events(flags, body);
    let ghost es = happenings(events@);
    let mut out: Vec<(usize, usize, LinkMark)> = Vec::new();
    let mut i: usize = 0;
    while i < events.len()
        invariant
            i <= events@.len(),
            es == happenings(events@),
            out@.len() == i,
            forall|k: int|
                0 <= k < i ==> (#[trigger] out@[k]).0 == es[k].0 && out@[k].1 == es[k].1 && out@[k].2@ == mark_of(es[k].2),
        decreases events@.len() - i,
    {
        let e = &events[i];
        proof {
            assert(es[i as int] == (e.0.start, e.0.end, e.1@));
        }
        let mark = match &e.1 {
            MdEvent::Verbatim(_) => LinkMark::Code,
            MdEvent::Block => LinkMark::Code,
            MdEvent::Points(f, s) => LinkMark::Link(*f, s.clone()),
            MdEvent::Shows(f, s) => LinkMark::Image(*f, s.clone()),
            _ => LinkMark::Other,
        };
        out.push((e.0.start, e.0.end, mark));
        i += 1;
    }
    proof {
        assert(marks(out@) =~= parsed_marks(flags, body@));
    }
    out
}

} // verus!
